use vstd::prelude::*;

verus! {

/// A colour as a pixel buffer stores it: blue, green, red and one unused
/// byte, the order of a little-endian 32-bit RGB surface.
#[derive(Debug, Clone, Copy, PartialEq, Eq, Structural)]
pub struct RGB {
    blue: u8,
    green: u8,
    red: u8,
}

impl View for RGB {
    type V = Seq<u8>;

    /// The four stored bytes, blue first; the last one is always zero.
    closed spec fn view(&self) -> Seq<u8> {
        seq![self.blue, self.green, self.red, 0u8]
    }
}

/// Every colour is four bytes wide.
pub broadcast proof fn lemma_rgb_len(c: RGB)
    ensures
        #[trigger] c@.len() == 4,
{
}

/// Two colours with the same bytes are the same colour.
pub proof fn lemma_rgb_view_eq(a: RGB, b: RGB)
    requires
        a@ == b@,
    ensures
        a == b,
{
    assert(a@[0] == b@[0] && a@[1] == b@[1] && a@[2] == b@[2]);
}

impl RGB {
    pub fn new(r: u8, g: u8, b: u8) -> (c: RGB)
        ensures
            c@ == seq![b, g, r, 0u8],
    {
        RGB { blue: b, green: g, red: r }
    }

    pub fn r(self) -> (v: u8)
        ensures
            v == self@[2],
    {
        self.red
    }

    pub fn g(self) -> (v: u8)
        ensures
            v == self@[1],
    {
        self.green
    }

    pub fn b(self) -> (v: u8)
        ensures
            v == self@[0],
    {
        self.blue
    }
}

/// The `k`-th four-byte group of a byte sequence: the bytes of pixel `k`.
pub open spec fn chunk(s: Seq<u8>, k: int) -> Seq<u8> {
    s.subrange(4 * k, 4 * k + 4)
}

/// A pixel of an image `w` pixels wide lies at `x + w * y` in row-major order,
/// inside the `w * h` pixels of the image.
pub proof fn lemma_index_bound(x: int, y: int, w: int, h: int)
    requires
        0 <= x < w,
        0 <= y < h,
    ensures
        0 <= x + w * y < w * h,
{
    assert(w * y <= w * (h - 1)) by (nonlinear_arith)
        requires
            0 <= y < h,
            0 < w,
    ;
    assert(w * (h - 1) == w * h - w) by (nonlinear_arith);
    assert(0 <= w * y) by (nonlinear_arith)
        requires
            0 <= y,
            0 < w,
    ;
}

/// Two pixels of one row-major image share a position only if they are the same.
pub proof fn lemma_index_injective(x1: int, y1: int, x2: int, y2: int, w: int)
    requires
        0 <= x1 < w,
        0 <= x2 < w,
        0 <= y1,
        0 <= y2,
        x1 + w * y1 == x2 + w * y2,
    ensures
        x1 == x2,
        y1 == y2,
{
    if y1 < y2 {
        assert(w * y1 + w <= w * y2) by (nonlinear_arith)
            requires
                y1 < y2,
                0 < w,
        ;
    } else if y2 < y1 {
        assert(w * y2 + w <= w * y1) by (nonlinear_arith)
            requires
                y2 < y1,
                0 < w,
        ;
    }
}

/// Appending four bytes to a sequence of whole pixels adds one pixel and
/// keeps the others.
pub proof fn lemma_chunk_push(s: Seq<u8>, c: Seq<u8>)
    requires
        s.len() % 4 == 0,
        c.len() == 4,
    ensures
        (s + c).len() == s.len() + 4,
        chunk(s + c, s.len() as int / 4) == c,
        forall|k: int| 0 <= k < s.len() / 4 ==> #[trigger] chunk(s + c, k) == chunk(s, k),
{
    assert(chunk(s + c, s.len() as int / 4) =~= c);
    assert forall|k: int| 0 <= k < s.len() / 4 implies #[trigger] chunk(s + c, k) == chunk(s, k) by {
        assert(chunk(s + c, k) =~= chunk(s, k));
    }
}

/// Appends the four bytes of `c`.
fn push_rgb(v: &mut Vec<u8>, c: RGB)
    ensures
        final(v)@ == old(v)@ + c@,
{
    v.push(c.blue);
    v.push(c.green);
    v.push(c.red);
    v.push(0);
    assert(final(v)@ =~= old(v)@ + c@);
}

/// The bytes of `n` pixels of colour `c`.
fn repeat_rgb(c: RGB, n: usize) -> (v: Vec<u8>)
    requires
        4 * n <= usize::MAX,
    ensures
        v@.len() == 4 * n,
        forall|m: int| 0 <= m < n ==> #[trigger] chunk(v@, m) == c@,
{
    let mut v: Vec<u8> = Vec::new();
    let mut k: usize = 0;
    proof {
        lemma_rgb_len(c);
    }
    while k < n
        invariant
            k <= n,
            c@.len() == 4,
            v@.len() == 4 * k,
            forall|m: int| 0 <= m < k ==> #[trigger] chunk(v@, m) == c@,
        decreases n - k,
    {
        let ghost before = v@;
        push_rgb(&mut v, c);
        proof {
            lemma_chunk_push(before, c@);
            assert(v@ == before + c@);
            assert(before.len() / 4 == k);
        }
        k = k + 1;
    }
    v
}

/// A pixel buffer: `width * height` colours in row-major order, four bytes each.
#[derive(Debug, Clone)]
pub struct SingleVecImage {
    pub width: usize,
    pub height: usize,
    pub vector: Vec<u8>,
}

impl SingleVecImage {
    /// The buffer holds exactly one colour for each pixel, and the unused
    /// byte of each is zero.
    pub open spec fn wf(&self) -> bool {
        &&& self.vector@.len() == 4 * (self.width * self.height)
        &&& forall|k: int|
            0 <= k < self.width * self.height ==> #[trigger] chunk(self.vector@, k)[3] == 0
    }

    pub open spec fn in_bounds(&self, x: int, y: int) -> bool {
        0 <= x < self.width && 0 <= y < self.height
    }

    /// The four bytes of the colour at `(x, y)`.
    pub open spec fn pixel(&self, x: int, y: int) -> Seq<u8> {
        chunk(self.vector@, x + self.width * y)
    }

    /// An image of `width * height` pixels, each of colour `data`.
    pub fn new(data: RGB, width: usize, height: usize) -> (img: SingleVecImage)
        requires
            4 * (width * height) <= usize::MAX,
        ensures
            img.wf(),
            img.width == width,
            img.height == height,
            forall|x: int, y: int| img.in_bounds(x, y) ==> #[trigger] img.pixel(x, y) == data@,
    {
        broadcast use lemma_rgb_len;

        assert(width * height <= usize::MAX) by (nonlinear_arith)
            requires
                4 * (width * height) <= usize::MAX,
        ;
        let n: usize = width * height;
        let vector = repeat_rgb(data, n);
        let img = SingleVecImage { width, height, vector };
        assert forall|k: int| 0 <= k < width * height implies #[trigger] chunk(img.vector@, k)[3] == 0 by {
            assert(chunk(img.vector@, k) == data@);
        }
        assert forall|x: int, y: int| img.in_bounds(x, y) implies #[trigger] img.pixel(x, y) == data@ by {
            lemma_index_bound(x, y, width as int, height as int);
        }
        img
    }

    /// The colour at `(x, y)`.
    pub fn get(&self, x: usize, y: usize) -> (c: RGB)
        requires
            self.wf(),
            x < self.width,
            y < self.height,
        ensures
            c@ == self.pixel(x as int, y as int),
    {
        proof {
            lemma_index_bound(x as int, y as int, self.width as int, self.height as int);
        }
        assert(self.vector.len() == self.vector@.len());
        let i: usize = 4 * (x + self.width * y);
        let c = RGB { blue: self.vector[i], green: self.vector[i + 1], red: self.vector[i + 2] };
        assert(c@ =~= self.pixel(x as int, y as int));
        c
    }

    /// Paints the pixel at `(x, y)`; every other pixel keeps its colour.
    pub fn set(&mut self, x: usize, y: usize, color: RGB)
        requires
            old(self).wf(),
            x < old(self).width,
            y < old(self).height,
        ensures
            final(self).wf(),
            final(self).width == old(self).width,
            final(self).height == old(self).height,
            forall|px: int, py: int|
                #![trigger final(self).pixel(px, py)]
                old(self).in_bounds(px, py) ==> final(self).pixel(px, py) == if px == x && py == y {
                    color@
                } else {
                    old(self).pixel(px, py)
                },
    {
        broadcast use lemma_rgb_len;

        proof {
            lemma_index_bound(x as int, y as int, self.width as int, self.height as int);
        }
        assert(self.vector.len() == self.vector@.len());
        let i: usize = 4 * (x + self.width * y);
        self.vector[i] = color.blue;
        self.vector[i + 1] = color.green;
        self.vector[i + 2] = color.red;
        self.vector[i + 3] = 0;
        assert forall|px: int, py: int| old(self).in_bounds(px, py) implies #[trigger] self.pixel(px, py)
            == if px == x && py == y {
            color@
        } else {
            old(self).pixel(px, py)
        } by {
            let w = self.width as int;
            lemma_index_bound(px, py, w, self.height as int);
            if px == x && py == y {
                assert(self.pixel(px, py) =~= color@);
            } else {
                if px + w * py == x + w * y {
                    lemma_index_injective(px, py, x as int, y as int, w);
                }
                assert(self.pixel(px, py) =~= old(self).pixel(px, py));
            }
        }
        assert forall|k: int| 0 <= k < self.width * self.height implies #[trigger] chunk(self.vector@, k)[3] == 0 by {
            if k != x + self.width * y {
                assert(chunk(self.vector@, k)[3] == chunk(old(self).vector@, k)[3]);
            }
        }
    }
}

impl SingleVecImage {
    /// Grows the image by `dx` columns on the right and `dy` rows at the
    /// bottom, all of colour `background`; the existing pixels stay where
    /// they are.
    pub fn extend(&mut self, dx: usize, dy: usize, background: RGB)
        requires
            old(self).wf(),
            old(self).width + dx <= usize::MAX,
            old(self).height + dy <= usize::MAX,
            4 * ((old(self).width + dx) * (old(self).height + dy)) <= usize::MAX,
        ensures
            final(self).wf(),
            final(self).width == old(self).width + dx,
            final(self).height == old(self).height + dy,
            forall|x: int, y: int|
                #![trigger final(self).pixel(x, y)]
                final(self).in_bounds(x, y) ==> final(self).pixel(x, y) == if old(self).in_bounds(x, y) {
                    old(self).pixel(x, y)
                } else {
                    background@
                },
    {
        broadcast use lemma_rgb_len;

        let w = self.width;
        let h = self.height;
        let nw = w + dx;
        let nh = h + dy;
        assert(nw * nh <= usize::MAX) by (nonlinear_arith)
            requires
                4 * (nw * nh) <= usize::MAX,
        ;
        let mut v: Vec<u8> = Vec::new();
        let mut y: usize = 0;
        while y < nh
            invariant
                self.wf(),
                self.width == w,
                self.height == h,
                nw == w + dx,
                nh == h + dy,
                4 * (nw * nh) <= usize::MAX,
                y <= nh,
                v@.len() == 4 * (nw * y),
                forall|k: int| 0 <= k < nw * y ==> #[trigger] chunk(v@, k)[3] == 0,
                forall|px: int, py: int|
                    #![trigger chunk(v@, px + nw * py)]
                    0 <= px < nw && 0 <= py < y ==> chunk(v@, px + nw * py) == if px < w && py < h {
                        self.pixel(px, py)
                    } else {
                        background@
                    },
            decreases nh - y,
        {
            assert(nw * y + nw <= nw * nh) by (nonlinear_arith)
                requires
                    y < nh,
                    nw >= 0,
            ;
            let mut x: usize = 0;
            while x < nw
                invariant
                    self.wf(),
                    self.width == w,
                    self.height == h,
                    nw == w + dx,
                    nh == h + dy,
                    4 * (nw * nh) <= usize::MAX,
                    y < nh,
                    x <= nw,
                    nw * y + nw <= nw * nh,
                    v@.len() == 4 * (nw * y + x),
                    forall|k: int| 0 <= k < nw * y + x ==> #[trigger] chunk(v@, k)[3] == 0,
                    forall|px: int, py: int|
                        #![trigger chunk(v@, px + nw * py)]
                        0 <= px < nw && 0 <= py && (py < y || (py == y && px < x)) ==> chunk(
                            v@,
                            px + nw * py,
                        ) == if px < w && py < h {
                            self.pixel(px, py)
                        } else {
                            background@
                        },
                decreases nw - x,
            {
                let c = if x < w && y < h {
                    self.get(x, y)
                } else {
                    background
                };
                let ghost before = v@;
                proof {
                    lemma_chunk_push(before, c@);
                    assert(before.len() / 4 == nw * y + x);
                }
                push_rgb(&mut v, c);
                proof {
                    assert forall|px: int, py: int|
                        0 <= px < nw && 0 <= py && (py < y || (py == y && px < x + 1)) implies #[trigger] chunk(
                        v@,
                        px + nw * py,
                    ) == if px < w && py < h {
                        self.pixel(px, py)
                    } else {
                        background@
                    } by {
                        if py < y {
                            assert(nw * py + nw <= nw * y) by (nonlinear_arith)
                                requires
                                    py < y,
                                    nw >= 0,
                            ;
                        }
                    }
                    if x < w && y < h {
                        lemma_index_bound(x as int, y as int, w as int, h as int);
                        assert(chunk(self.vector@, x + w * y)[3] == 0);
                    }
                }
                x = x + 1;
            }
            assert(nw * (y + 1) == nw * y + nw) by (nonlinear_arith);
            y = y + 1;
        }
        self.vector = v;
        self.width = nw;
        self.height = nh;
    }
}

/// Two well-formed images of one size with the same colour at every pixel
/// hold the same bytes.
pub proof fn lemma_pixels_determine_bytes(a: SingleVecImage, b: SingleVecImage)
    requires
        a.wf(),
        b.wf(),
        a.width == b.width,
        a.height == b.height,
        forall|x: int, y: int| a.in_bounds(x, y) ==> #[trigger] a.pixel(x, y) == b.pixel(x, y),
    ensures
        a.vector@ == b.vector@,
{
    let w = a.width as int;
    let h = a.height as int;
    assert forall|j: int| 0 <= j < a.vector@.len() implies a.vector@[j] == b.vector@[j] by {
        let k = j / 4;
        assert(0 <= k < w * h);
        assert(w > 0) by (nonlinear_arith)
            requires
                0 <= k < w * h,
                0 <= h,
        ;
        vstd::arithmetic::div_mod::lemma_fundamental_div_mod(k, w);
        vstd::arithmetic::div_mod::lemma_mod_bound(k, w);
        vstd::arithmetic::div_mod::lemma_div_pos_is_pos(k, w);
        let x = k % w;
        let y = k / w;
        assert(k == x + w * y);
        assert(y < h) by (nonlinear_arith)
            requires
                k == x + w * y,
                0 <= x,
                k < w * h,
                w > 0,
        ;
        assert(a.pixel(x, y) == b.pixel(x, y));
        assert(chunk(a.vector@, k)[j - 4 * k] == a.vector@[j]);
        assert(chunk(b.vector@, k)[j - 4 * k] == b.vector@[j]);
    }
    assert(a.vector@ =~= b.vector@);
}

} // verus!
