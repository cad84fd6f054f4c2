use vstd::prelude::*;

verus! {

/// Subpixel `c` of pixel number `p` in a flat buffer with `n` subpixels per pixel.
pub open spec fn subpixel(bytes: Seq<u8>, n: int, p: int, c: int) -> u8 {
    bytes[p * n + c]
}

/// Row-major number of the pixel at column `x`, row `y`, in an image `w` pixels wide.
pub open spec fn pixel_number(w: int, x: int, y: int) -> int {
    y * w + x
}

/// A canvas whose dimensions are fixed when it is made.
pub trait FixedSizeCanvas {
    spec fn width_spec(&self) -> nat;

    spec fn height_spec(&self) -> nat;

    fn width(&self) -> (r: u32)
        ensures
            r == self.width_spec(),
    ;

    fn height(&self) -> (r: u32)
        ensures
            r == self.height_spec(),
    ;
}

/// A canvas that can write one pixel, or fill a run of pixels on one row.
pub trait HorizontalLineCanvas<Paint: View>: FixedSizeCanvas {
    spec fn well_formed(&self) -> bool;

    /// What the pixel at column `x`, row `y` holds.
    spec fn pixel(&self, x: int, y: int) -> Paint::V;

    /// Writes `paint` at (x, y); every other pixel keeps its value.
    fn draw_pixel(&mut self, x: u32, y: u32, paint: Paint)
        requires
            old(self).well_formed(),
            x < old(self).width_spec(),
            y < old(self).height_spec(),
        ensures
            final(self).well_formed(),
            final(self).width_spec() == old(self).width_spec(),
            final(self).height_spec() == old(self).height_spec(),
            forall|i: int, j: int|
                0 <= i < final(self).width_spec() && 0 <= j < final(self).height_spec()
                    ==> #[trigger] final(self).pixel(i, j) == if i == x && j == y {
                    paint@
                } else {
                    old(self).pixel(i, j)
                },
    ;

    /// Writes `paint` on the columns `x0 .. x1` of row `y`; every other pixel keeps its value.
    fn draw_horizontal_line(&mut self, x0: u32, x1: u32, y: u32, paint: Paint)
        requires
            old(self).well_formed(),
            x0 <= x1 <= old(self).width_spec(),
            y < old(self).height_spec(),
        ensures
            final(self).well_formed(),
            final(self).width_spec() == old(self).width_spec(),
            final(self).height_spec() == old(self).height_spec(),
            forall|i: int, j: int|
                0 <= i < final(self).width_spec() && 0 <= j < final(self).height_spec()
                    ==> #[trigger] final(self).pixel(i, j) == if j == y && x0 <= i < x1 {
                    paint@
                } else {
                    old(self).pixel(i, j)
                },
    ;
}

/// Hands out blank canvases and takes finished ones, one per frame.
pub trait FrameHandler {
    type Canvas;

    fn produce(&mut self) -> Self::Canvas;

    fn consume(&mut self, canvas: Self::Canvas);
}

/// An image of `N` subpixels per pixel, stored row by row in one byte buffer.
pub struct HorizontalLineImage<const N: usize> {
    width: u32,
    height: u32,
    data: Vec<u8>,
}

proof fn lemma_subpixel_index(n: int, p: int, c: int, q: int, d: int)
    requires
        0 <= c < n,
        0 <= d < n,
    ensures
        (p * n + c == q * n + d) <==> (p == q && c == d),
{
    if p * n + c == q * n + d {
        assert((p - q) * n == d - c) by (nonlinear_arith)
            requires
                p * n + c == q * n + d,
        ;
        if p > q {
            assert((p - q) * n >= n) by (nonlinear_arith)
                requires
                    p > q,
                    n > 0,
            ;
        } else if p < q {
            assert((q - p) * n >= n) by (nonlinear_arith)
                requires
                    p < q,
                    n > 0,
            ;
            assert((p - q) * n == -((q - p) * n)) by (nonlinear_arith);
        }
    }
}

proof fn lemma_subpixel_bound(n: int, m: int, p: int, c: int)
    requires
        0 <= c < n,
        0 <= p < m,
    ensures
        0 <= p * n + c < m * n,
{
    assert(0 <= p * n) by (nonlinear_arith)
        requires
            0 <= p,
            0 <= n,
    ;
    assert((p + 1) * n <= m * n) by (nonlinear_arith)
        requires
            p + 1 <= m,
            0 <= n,
    ;
    assert((p + 1) * n == p * n + n) by (nonlinear_arith);
}

proof fn lemma_pixel_number(w: int, h: int, i: int, j: int)
    requires
        0 <= i < w,
        0 <= j < h,
    ensures
        0 <= pixel_number(w, i, j) < w * h,
{
    assert(0 <= j * w) by (nonlinear_arith)
        requires
            0 <= j,
            0 <= w,
    ;
    assert((j + 1) * w <= h * w) by (nonlinear_arith)
        requires
            j + 1 <= h,
            0 <= w,
    ;
    assert((j + 1) * w == j * w + w && h * w == w * h) by (nonlinear_arith);
}

proof fn lemma_row_span(w: int, i: int, j: int, y: int, x0: int, x1: int)
    requires
        0 <= i < w,
        0 <= j,
        0 <= y,
        0 <= x0 <= x1 <= w,
    ensures
        (pixel_number(w, x0, y) <= pixel_number(w, i, j) < pixel_number(w, x1, y)) <==> (j == y
            && x0 <= i < x1),
{
    if j < y {
        assert(j * w + w <= y * w) by (nonlinear_arith)
            requires
                j + 1 <= y,
                0 <= w,
        ;
    } else if j > y {
        assert(y * w + w <= j * w) by (nonlinear_arith)
            requires
                y + 1 <= j,
                0 <= w,
        ;
    }
}

impl<const N: usize> HorizontalLineImage<N> {
    /// The image's subpixels, row by row.
    pub closed spec fn bytes(&self) -> Seq<u8> {
        self.data@
    }

    /// Whether a buffer of `len` bytes holds exactly a `w` x `h` image that can be addressed.
    pub open spec fn holds_image(w: int, h: int, len: int) -> bool {
        len == w * h * N && Self::fits(w, h)
    }

    /// Whether the buffer of a `w` x `h` image can be addressed: its pixel count, the length
    /// of one row and the length of the whole buffer fit in `usize`.
    pub open spec fn fits(w: int, h: int) -> bool {
        &&& w * h <= usize::MAX
        &&& N * w <= usize::MAX
        &&& w * h * N <= usize::MAX
    }

    /// Computes the pixel count and the buffer length of a `width` x `height` image,
    /// or `None` when it cannot be addressed.
    fn buffer_len(width: u32, height: u32) -> (r: Option<(usize, usize)>)
        ensures
            r is Some <==> Self::fits(width as int, height as int),
            r matches Some((count, len)) ==> count == width * height && len == width * height * N,
    {
        assert((width as int) * (height as int) <= 0xffff_ffffu64 * 0xffff_ffffu64) by (nonlinear_arith)
            requires
                0 <= width <= 0xffff_ffffu64,
                0 <= height <= 0xffff_ffffu64,
        ;
        assert((N as int) * (width as int) <= 0xffff_ffff_ffff_ffffu64 * 0xffff_ffffu64) by (nonlinear_arith)
            requires
                0 <= width <= 0xffff_ffffu64,
                0 <= N <= 0xffff_ffff_ffff_ffffu64,
        ;
        let count = (width as u128) * (height as u128);
        let row = (N as u128) * (width as u128);
        assert(row * height <= u128::MAX) by (nonlinear_arith)
            requires
                row <= 0xffff_ffff_ffff_ffffu64 * 0xffff_ffffu64,
                0 <= row,
                0 <= height <= 0xffff_ffffu64,
        ;
        let len = row * (height as u128);
        assert(len == width * height * N) by (nonlinear_arith)
            requires
                len == row * height,
                row == N * width,
        ;
        if count > usize::MAX as u128 || row > usize::MAX as u128 || len > usize::MAX as u128 {
            None
        } else {
            Some((count as usize, len as usize))
        }
    }

    /// Makes a `width` x `height` image with every pixel set to `paint`.
    /// Returns `None`, as the buffer cannot be addressed, when `fits` does not hold.
    pub fn new(width: u32, height: u32, paint: [u8; N]) -> (r: Option<Self>)
        ensures
            r is None <==> !Self::fits(width as int, height as int),
            r matches Some(img) ==> {
                &&& img.well_formed()
                &&& img.width_spec() == width
                &&& img.height_spec() == height
                &&& forall|i: int, j: int|
                    0 <= i < width && 0 <= j < height ==> #[trigger] img.pixel(i, j) == paint@
            },
    {
        let (total, len) = match Self::buffer_len(width, height) {
            Some(v) => v,
            None => return None,
        };
        let mut img = HorizontalLineImage::<N> { width, height, data: vec![0u8; len] };
        img.fill_pixels(0, total, paint);
        proof {
            assert forall|i: int, j: int| 0 <= i < width && 0 <= j < height implies #[trigger] img.pixel(i, j)
                == paint@ by {
                img.lemma_pixel_subpixels(i, j);
                lemma_pixel_number(width as int, height as int, i, j);
                assert(img.pixel(i, j) =~= paint@);
            }
        }
        Some(img)
    }

    /// Takes a buffer of packed pixels, row by row. Returns `None` unless its length is
    /// exactly `width * height * N`.
    pub fn from_raw(width: u32, height: u32, data: Vec<u8>) -> (r: Option<Self>)
        ensures
            r is Some <==> Self::holds_image(width as int, height as int, data@.len() as int),
            r matches Some(img) ==> {
                &&& img.well_formed()
                &&& img.width_spec() == width
                &&& img.height_spec() == height
                &&& img.bytes() == data@
            },
    {
        let n = data.len();
        match Self::buffer_len(width, height) {
            Some((_, len)) => {
                if len != n {
                    return None;
                }
                Some(HorizontalLineImage { width, height, data })
            },
            None => None,
        }
    }

    /// The subpixels of the pixel at column `x`, row `y`.
    pub fn get_pixel(&self, x: u32, y: u32) -> (r: Vec<u8>)
        requires
            self.well_formed(),
            x < self.width_spec(),
            y < self.height_spec(),
        ensures
            r@ == self.pixel(x as int, y as int),
    {
        proof {
            self.lemma_pixel_subpixels(x as int, y as int);
            lemma_pixel_number(self.width_spec() as int, self.height_spec() as int, x as int, y as int);
            assert((pixel_number(self.width_spec() as int, x as int, y as int) + 1) * N <= self.data@.len()) by (nonlinear_arith)
                requires
                    pixel_number(self.width_spec() as int, x as int, y as int) < self.width_spec() * self.height_spec(),
                    self.data@.len() == self.width_spec() * self.height_spec() * N,
            ;
            assert((pixel_number(self.width_spec() as int, x as int, y as int) + 1) * N == pixel_number(self.width_spec() as int, x as int, y as int) * N + N) by (nonlinear_arith);
        }
        let start = ((y as usize) * (self.width as usize) + x as usize) * N;
        let mut out: Vec<u8> = Vec::new();
        let mut c: usize = 0;
        while c < N
            invariant
                0 <= c <= N,
                start == pixel_number(self.width_spec() as int, x as int, y as int) * N,
                start + N <= self.data@.len() <= usize::MAX,
                out@ == self.pixel(x as int, y as int).subrange(0, c as int),
            decreases N - c,
        {
            out.push(self.data[start + c]);
            c = c + 1;
            assert(out@ =~= self.pixel(x as int, y as int).subrange(0, c as int));
        }
        assert(out@ =~= self.pixel(x as int, y as int));
        out
    }

    /// The packed buffer of a well-formed image, together with its width and height, is one
    /// that `from_raw` accepts: its length is exactly `width * height * N` and the image can
    /// be addressed. (That `into_raw` and `from_raw` keep the bytes is their own contract.)
    pub proof fn lemma_raw_round_trip(img: &Self)
        requires
            img.well_formed(),
        ensures
            Self::holds_image(img.width_spec() as int, img.height_spec() as int, img.bytes().len() as int),
    {
    }

    /// Gives up the image, returning its packed pixels, row by row.
    pub fn into_raw(self) -> (r: Vec<u8>)
        ensures
            r@ == self.bytes(),
    {
        self.data
    }

    proof fn lemma_pixel_subpixels(&self, x: int, y: int)
        requires
            self.well_formed(),
            0 <= x < self.width_spec(),
            0 <= y < self.height_spec(),
        ensures
            forall|c: int|
                0 <= c < N ==> #[trigger] self.pixel(x, y)[c] == subpixel(
                    self.bytes(),
                    N as int,
                    pixel_number(self.width_spec() as int, x, y),
                    c,
                ),
            self.pixel(x, y).len() == N,
    {
        let w = self.width_spec() as int;
        let h = self.height_spec() as int;
        lemma_pixel_number(w, h, x, y);
        assert((pixel_number(w, x, y) + 1) * N <= w * h * N) by (nonlinear_arith)
            requires
                pixel_number(w, x, y) < w * h,
                N >= 0,
        ;
        assert((pixel_number(w, x, y) + 1) * N == pixel_number(w, x, y) * N + N) by (nonlinear_arith);
    }

    /// Sets the pixels numbered `first .. last` to `paint`.
    fn fill_pixels(&mut self, first: usize, last: usize, paint: [u8; N])
        requires
            old(self).well_formed(),
            first <= last <= old(self).width_spec() * old(self).height_spec(),
        ensures
            final(self).well_formed(),
            final(self).width_spec() == old(self).width_spec(),
            final(self).height_spec() == old(self).height_spec(),
            forall|q: int, c: int|
                0 <= q < old(self).width_spec() * old(self).height_spec() && 0 <= c < N
                    ==> #[trigger] subpixel(final(self).bytes(), N as int, q, c) == if first <= q
                    < last {
                    paint@[c]
                } else {
                    subpixel(old(self).bytes(), N as int, q, c)
                },
    {
        let ghost m: int = (old(self).width_spec() * old(self).height_spec()) as int;
        let ghost before = old(self).bytes();
        let mut p = first;
        while p < last
            invariant
                first <= p <= last <= m,
                m == self.width_spec() * self.height_spec(),
                self.well_formed(),
                self.width_spec() == old(self).width_spec(),
                self.height_spec() == old(self).height_spec(),
                forall|q: int, c: int|
                    0 <= q < m && 0 <= c < N ==> #[trigger] subpixel(self.bytes(), N as int, q, c)
                        == if first <= q < p {
                        paint@[c]
                    } else {
                        subpixel(before, N as int, q, c)
                    },
            decreases last - p,
        {
            let mut c: usize = 0;
            while c < N
                invariant
                    first <= p < last <= m,
                    0 <= c <= N,
                    m == self.width_spec() * self.height_spec(),
                    self.well_formed(),
                    self.width_spec() == old(self).width_spec(),
                    self.height_spec() == old(self).height_spec(),
                    forall|q: int, d: int|
                        0 <= q < m && 0 <= d < N ==> #[trigger] subpixel(
                            self.bytes(),
                            N as int,
                            q,
                            d,
                        ) == if (first <= q < p) || (q == p && d < c) {
                            paint@[d]
                        } else {
                            subpixel(before, N as int, q, d)
                        },
                decreases N - c,
            {
                proof {
                    lemma_subpixel_bound(N as int, m, p as int, c as int);
                    assert(m * N == self.data@.len()) by (nonlinear_arith)
                        requires
                            m == self.width_spec() * self.height_spec(),
                            self.data@.len() == self.width_spec() * self.height_spec() * N,
                    ;
                }
                let idx = p * N + c;
                let ghost prev = self.data@;
                self.data.set(idx, paint[c]);
                proof {
                    assert forall|q: int, d: int| 0 <= q < m && 0 <= d < N implies #[trigger] subpixel(
                        self.bytes(),
                        N as int,
                        q,
                        d,
                    ) == if (first <= q < p) || (q == p && d < c + 1) {
                        paint@[d]
                    } else {
                        subpixel(before, N as int, q, d)
                    } by {
                        lemma_subpixel_index(N as int, q, d, p as int, c as int);
                        lemma_subpixel_bound(N as int, m, q, d);
                        assert(subpixel(prev, N as int, q, d) == prev[q * N + d]);
                    }
                }
                c = c + 1;
            }
            p = p + 1;
        }
    }
}

impl<const N: usize> FixedSizeCanvas for HorizontalLineImage<N> {
    closed spec fn width_spec(&self) -> nat {
        self.width as nat
    }

    closed spec fn height_spec(&self) -> nat {
        self.height as nat
    }

    fn width(&self) -> (r: u32) {
        self.width
    }

    fn height(&self) -> (r: u32) {
        self.height
    }
}

impl<const N: usize> HorizontalLineCanvas<[u8; N]> for HorizontalLineImage<N> {
    open spec fn well_formed(&self) -> bool {
        Self::holds_image(self.width_spec() as int, self.height_spec() as int, self.bytes().len() as int)
    }

    open spec fn pixel(&self, x: int, y: int) -> Seq<u8> {
        let start = pixel_number(self.width_spec() as int, x, y) * N;
        self.bytes().subrange(start, start + N)
    }

    fn draw_pixel(&mut self, x: u32, y: u32, paint: [u8; N]) {
        self.draw_horizontal_line(x, x + 1, y, paint);
    }

    fn draw_horizontal_line(&mut self, x0: u32, x1: u32, y: u32, paint: [u8; N]) {
        let ghost w = self.width_spec() as int;
        let ghost h = self.height_spec() as int;
        proof {
            assert(y * w + x1 <= w * h) by (nonlinear_arith)
                requires
                    0 <= y < h,
                    0 <= x1 <= w,
            ;
        }
        let row = (y as usize) * (self.width as usize);
        self.fill_pixels(row + x0 as usize, row + x1 as usize, paint);
        proof {
            assert forall|i: int, j: int| 0 <= i < w && 0 <= j < h implies #[trigger] self.pixel(i, j)
                == if j == y && x0 <= i < x1 {
                paint@
            } else {
                old(self).pixel(i, j)
            } by {
                self.lemma_pixel_subpixels(i, j);
                old(self).lemma_pixel_subpixels(i, j);
                lemma_pixel_number(w, h, i, j);
                lemma_row_span(w, i, j, y as int, x0 as int, x1 as int);
                if j == y && x0 <= i < x1 {
                    assert(self.pixel(i, j) =~= paint@);
                } else {
                    assert(self.pixel(i, j) =~= old(self).pixel(i, j));
                }
            }
        }
    }
}

} // verus!
