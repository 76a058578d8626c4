use vstd::prelude::*;

verus! {

/// A raster sample as the map generator reads it: one small integer per pixel
/// (the first channel of the source artwork), stored row-major.
#[derive(Debug)]
pub struct TileImage {
    pub width: usize,
    pub height: usize,
    pub pixels: Vec<u8>,
}

/// The pixels of the clockwise quarter-turn of a `w` x `h` image: the result
/// is `h` wide and `w` high, and its pixel at `(x, y)` is the source pixel at
/// `(y, h - 1 - x)`.
pub open spec fn rot90_spec(w: int, h: int, p: Seq<u8>) -> Seq<u8> {
    Seq::new((w * h) as nat, |j: int| p[w * (h - 1 - j % h) + j / h])
}

/// The pixels of a half-turn of an image of `n` pixels.
pub open spec fn flip180_spec(n: int, p: Seq<u8>) -> Seq<u8> {
    Seq::new(n as nat, |j: int| p[n - 1 - j])
}

impl TileImage {
    /// A well-formed image has positive extent and one value per pixel.
    pub open spec fn wf(self) -> bool {
        &&& 1 <= self.width
        &&& 1 <= self.height
        &&& self.pixels@.len() == self.width * self.height
    }

    /// The pixel at column `x`, row `y`.
    pub open spec fn pixel(self, x: int, y: int) -> u8 {
        self.pixels@[self.width * y + x]
    }

    /// The pixel at column `x`, row `y`.
    pub fn at(&self, x: usize, y: usize) -> (r: u8)
        requires
            self.wf(),
            x < self.width,
            y < self.height,
        ensures
            r == self.pixel(x as int, y as int),
    {
        let w = self.width;
        let n = self.pixels.len();
        proof {
            assert(w * y + x < w * self.height) by (nonlinear_arith)
                requires 0 <= x < w && 0 <= y && y + 1 <= self.height && 1 <= w;
        }
        self.pixels[w * y + x]
    }

    /// The image turned a quarter-turn clockwise.
    pub fn rotate90(&self) -> (r: TileImage)
        requires
            self.wf(),
        ensures
            r.wf(),
            r.width == self.height,
            r.height == self.width,
            r.pixels@ == rot90_spec(self.width as int, self.height as int, self.pixels@),
    {
        let w = self.width;
        let h = self.height;
        let n = self.pixels.len();
        let ghost spec_out = rot90_spec(w as int, h as int, self.pixels@);
        let mut out: Vec<u8> = Vec::new();
        let mut y2: usize = 0;
        while y2 < w
            invariant
                y2 <= w,
                self.wf(),
                w == self.width,
                h == self.height,
                n == self.pixels@.len(),
                spec_out == rot90_spec(w as int, h as int, self.pixels@),
                out@.len() == h * y2,
                forall|j: int| 0 <= j < out@.len() ==> #[trigger] out@[j] == spec_out[j],
            decreases w - y2,
        {
            let mut x2: usize = 0;
            while x2 < h
                invariant
                    y2 < w,
                    x2 <= h,
                    self.wf(),
                    w == self.width,
                    h == self.height,
                    n == self.pixels@.len(),
                    spec_out == rot90_spec(w as int, h as int, self.pixels@),
                    out@.len() == h * y2 + x2,
                    forall|j: int| 0 <= j < out@.len() ==> #[trigger] out@[j] == spec_out[j],
                decreases h - x2,
            {
                proof {
                    assert(w * (h - 1 - x2) + y2 < w * h && h * y2 + x2 < w * h) by (nonlinear_arith)
                        requires 0 <= x2 < h && 0 <= y2 < w;
                    vstd::arithmetic::div_mod::lemma_fundamental_div_mod_converse(
                        h * y2 + x2, h as int, y2 as int, x2 as int);
                }
                let ghost prev = out@;
                let v = self.pixels[w * (h - 1 - x2) + y2];
                out.push(v);
                proof {
                    assert forall|j: int| 0 <= j < out@.len() implies #[trigger] out@[j]
                        == spec_out[j] by {
                        if j < prev.len() {
                            assert(out@[j] == prev[j]);
                        } else {
                            assert(out@[j] == v);
                        }
                    };
                }
                x2 += 1;
            }
            proof {
                assert(h * y2 + h == h * (y2 + 1)) by (nonlinear_arith);
            }
            y2 += 1;
        }
        proof {
            assert(h * w == w * h) by (nonlinear_arith);
            assert(out@ =~= spec_out);
        }
        TileImage { width: h, height: w, pixels: out }
    }

    /// The `w` x `h` sub-image whose top-left corner sits at `(x0, y0)`.
    pub fn crop(&self, x0: usize, y0: usize, w: usize, h: usize) -> (r: TileImage)
        requires
            self.wf(),
            1 <= w,
            1 <= h,
            x0 + w <= self.width,
            y0 + h <= self.height,
        ensures
            r.wf(),
            r.width == w,
            r.height == h,
            forall|x: int, y: int| 0 <= x < w && 0 <= y < h
                ==> #[trigger] r.pixel(x, y) == self.pixel(x0 + x, y0 + y),
    {
        let mut out: Vec<u8> = Vec::new();
        let mut y: usize = 0;
        while y < h
            invariant
                y <= h,
                self.wf(),
                1 <= w,
                x0 + w <= self.width,
                y0 + h <= self.height,
                out@.len() == w * y,
                forall|xi: int, yi: int| 0 <= xi < w && 0 <= yi < y
                    ==> #[trigger] out@[w * yi + xi] == self.pixel(x0 + xi, y0 + yi),
            decreases h - y,
        {
            let mut x: usize = 0;
            while x < w
                invariant
                    y < h,
                    x <= w,
                    self.wf(),
                    1 <= w,
                    x0 + w <= self.width,
                    y0 + h <= self.height,
                    out@.len() == w * y + x,
                    forall|xi: int, yi: int| 0 <= xi < w && 0 <= yi < y
                        ==> #[trigger] out@[w * yi + xi] == self.pixel(x0 + xi, y0 + yi),
                    forall|xi: int| 0 <= xi < x
                        ==> #[trigger] out@[w * y + xi] == self.pixel(x0 + xi, y0 + y),
                decreases w - x,
            {
                let ghost prev = out@;
                let v = self.at(x0 + x, y0 + y);
                out.push(v);
                proof {
                    assert forall|xi: int, yi: int| 0 <= xi < w && 0 <= yi < y
                        implies #[trigger] out@[w * yi + xi] == self.pixel(x0 + xi, y0 + yi) by {
                        assert(w * yi + xi < w * y + x) by (nonlinear_arith)
                            requires 0 <= xi < w && 0 <= yi && yi + 1 <= y && 0 <= x;
                        assert(out@[w * yi + xi] == prev[w * yi + xi]);
                    };
                    assert forall|xi: int| 0 <= xi < x + 1
                        implies #[trigger] out@[w * y + xi] == self.pixel(x0 + xi, y0 + y) by {
                        if xi < x {
                            assert(out@[w * y + xi] == prev[w * y + xi]);
                        } else {
                            assert(out@[w * y + xi] == v);
                        }
                    };
                }
                x += 1;
            }
            proof {
                assert(w * y + w == w * (y + 1)) by (nonlinear_arith);
            }
            y += 1;
        }
        TileImage { width: w, height: h, pixels: out }
    }
}

/// A half-turn twice is the identity.
pub proof fn lemma_flip180_twice(n: int, p: Seq<u8>)
    requires
        p.len() == n,
        0 <= n,
    ensures
        flip180_spec(n, flip180_spec(n, p)) == p,
{
    assert(flip180_spec(n, flip180_spec(n, p)) =~= p);
}

/// Two clockwise quarter-turns are a half-turn of the pixel sequence.
pub proof fn lemma_rot90_twice(w: int, h: int, p: Seq<u8>)
    requires
        1 <= w,
        1 <= h,
        p.len() == w * h,
    ensures
        rot90_spec(h, w, rot90_spec(w, h, p)) == flip180_spec(w * h, p),
{
    let p1 = rot90_spec(w, h, p);
    let p2 = rot90_spec(h, w, p1);
    assert(p1.len() == w * h);
    assert(h * w == w * h) by (nonlinear_arith);
    assert(p2.len() == w * h);
    assert forall|j: int| 0 <= j < w * h implies p2[j] == p[w * h - 1 - j] by {
        let x = j % w;
        let y = j / w;
        vstd::arithmetic::div_mod::lemma_fundamental_div_mod(j, w);
        vstd::arithmetic::div_mod::lemma_mod_pos_bound(j, w);
        assert(0 <= y < h) by (nonlinear_arith)
            requires j == w * y + x && 0 <= x < w && 0 <= j < w * h && 1 <= w && 1 <= h;
        let i = h * (w - 1 - x) + y;
        assert(p2[j] == p1[i]);
        assert(0 <= i < w * h) by (nonlinear_arith)
            requires i == h * (w - 1 - x) + y && 0 <= x < w && 0 <= y < h && 1 <= h;
        vstd::arithmetic::div_mod::lemma_fundamental_div_mod_converse(
            i, h as int, (w - 1 - x) as int, y as int);
        assert(i % h == y && i / h == w - 1 - x);
        assert(p1[i] == p[w * (h - 1 - y) + (w - 1 - x)]);
        assert(w * (h - 1 - y) + (w - 1 - x) == w * h - 1 - j) by (nonlinear_arith)
            requires j == w * y + x;
    }
    assert(p2 =~= flip180_spec(w * h, p));
}

/// Turning an image four quarter-turns clockwise restores its pixels exactly.
pub proof fn lemma_rot90_four(w: int, h: int, p: Seq<u8>)
    requires
        1 <= w,
        1 <= h,
        p.len() == w * h,
    ensures
        rot90_spec(h, w, rot90_spec(w, h, rot90_spec(h, w, rot90_spec(w, h, p)))) == p,
{
    let p2 = rot90_spec(h, w, rot90_spec(w, h, p));
    lemma_rot90_twice(w, h, p);
    assert(p2 == flip180_spec(w * h, p));
    assert(p2.len() == w * h);
    lemma_rot90_twice(w, h, p2);
    lemma_flip180_twice(w * h, p);
}

} // verus!
