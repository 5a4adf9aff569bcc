use vstd::prelude::*;

use crate::geometry::Rect;

verus! {

/// An 8-bit RGB image stored row by row, three bytes per pixel.
pub struct Frame {
    width: usize,
    height: usize,
    data: Vec<u8>,
}

/// Column of the pixel that byte `k` belongs to.
pub open spec fn byte_column(k: int, width: int) -> int {
    (k / 3) % width
}

/// Row of the pixel that byte `k` belongs to.
pub open spec fn byte_row(k: int, width: int) -> int {
    (k / 3) / width
}

/// `bytes` with every pixel whose (column, row) satisfies `mask` set to `color`.
pub open spec fn repaint(
    bytes: Seq<u8>,
    width: int,
    mask: spec_fn(int, int) -> bool,
    color: [u8; 3],
) -> Seq<u8> {
    Seq::new(
        bytes.len(),
        |k: int|
            if mask(byte_column(k, width), byte_row(k, width)) {
                color@[k % 3]
            } else {
                bytes[k]
            },
    )
}

/// Pixels of the box `[x0, x1) x [y0, y1)`.
pub open spec fn in_box(x0: int, x1: int, y0: int, y1: int, px: int, py: int) -> bool {
    x0 <= px < x1 && y0 <= py < y1
}

/// Pixels that `draw_rect` paints: a two-pixel-thick outline made of the two
/// top rows, the two bottom rows, the two left columns and the two right
/// columns of the box (rows `y, y+1, y+h-2, y+h-1` across `[x, x+w)`, and
/// columns `x, x+1, x+w-2, x+w-1` across `[y, y+h)`).
pub open spec fn on_outline(r: Rect, px: int, py: int) -> bool {
    let (x, y, w, h) = (r.x as int, r.y as int, r.width as int, r.height as int);
    ||| x <= px < x + w && (py == y || py == y + 1 || py == y + h - 1 || py == y + h - 2)
    ||| y <= py < y + h && (px == x || px == x + 1 || px == x + w - 1 || px == x + w - 2)
}

/// Pixels that `draw_filled_rect` paints: the box itself.
pub open spec fn in_rect(r: Rect, px: int, py: int) -> bool {
    in_box(r.x as int, r.x + r.width, r.y as int, r.y + r.height, px, py)
}

proof fn lemma_byte_coords(k: int, w: int, h: int)
    requires
        w > 0,
        h >= 0,
        0 <= k < w * h * 3,
    ensures
        0 <= byte_column(k, w) < w,
        0 <= byte_row(k, w) < h,
        k == (byte_row(k, w) * w + byte_column(k, w)) * 3 + k % 3,
        0 <= k % 3 < 3,
{
    let p = k / 3;
    vstd::arithmetic::div_mod::lemma_fundamental_div_mod(k, 3);
    vstd::arithmetic::div_mod::lemma_fundamental_div_mod(p, w);
    assert(0 <= p < w * h) by {
        vstd::arithmetic::mul::lemma_mul_is_associative(w, h, 3);
        vstd::arithmetic::div_mod::lemma_multiply_divide_lt(k, 3, w * h);
    }
    assert(p / w < h) by {
        vstd::arithmetic::mul::lemma_mul_is_commutative(w, h);
        vstd::arithmetic::div_mod::lemma_multiply_divide_lt(p, w, h);
    }
    assert(p / w >= 0) by {
        vstd::arithmetic::div_mod::lemma_div_pos_is_pos(p, w);
    }
    assert(p == w * (p / w) + p % w);
    assert(w * (p / w) == (p / w) * w) by {
        vstd::arithmetic::mul::lemma_mul_is_commutative(w, p / w);
    }
}

proof fn lemma_pixel_bytes(k: int, w: int, x: int, y: int)
    requires
        w > 0,
        0 <= x < w,
        0 <= y,
        0 <= k,
    ensures
        (byte_column(k, w) == x && byte_row(k, w) == y) <==> ((y * w + x) * 3 <= k < (y * w + x)
            * 3 + 3),
{
    let p = k / 3;
    vstd::arithmetic::div_mod::lemma_fundamental_div_mod(k, 3);
    vstd::arithmetic::div_mod::lemma_fundamental_div_mod(p, w);
    let q = y * w + x;
    if byte_column(k, w) == x && byte_row(k, w) == y {
        assert(p == w * y + x);
        assert(w * y == y * w) by {
            vstd::arithmetic::mul::lemma_mul_is_commutative(w, y);
        }
    }
    if q * 3 <= k < q * 3 + 3 {
        vstd::arithmetic::div_mod::lemma_fundamental_div_mod_converse(k, 3, q, k - q * 3);
        vstd::arithmetic::div_mod::lemma_fundamental_div_mod_converse(p, w, y, x);
    }
}

proof fn lemma_repaint_twice(
    bytes: Seq<u8>,
    width: int,
    m1: spec_fn(int, int) -> bool,
    m2: spec_fn(int, int) -> bool,
    color: [u8; 3],
)
    ensures
        repaint(repaint(bytes, width, m1, color), width, m2, color) == repaint(
            bytes,
            width,
            |px: int, py: int| m1(px, py) || m2(px, py),
            color,
        ),
{
    assert(repaint(repaint(bytes, width, m1, color), width, m2, color) =~= repaint(
        bytes,
        width,
        |px: int, py: int| m1(px, py) || m2(px, py),
        color,
    ));
}

proof fn lemma_repaint_same_mask(
    bytes: Seq<u8>,
    w: int,
    h: int,
    m1: spec_fn(int, int) -> bool,
    m2: spec_fn(int, int) -> bool,
    color: [u8; 3],
)
    requires
        w > 0,
        h >= 0,
        bytes.len() == w * h * 3,
        forall|px: int, py: int| 0 <= px < w && 0 <= py < h ==> #[trigger] m1(px, py) == m2(px, py),
    ensures
        repaint(bytes, w, m1, color) == repaint(bytes, w, m2, color),
{
    assert forall|k: int| 0 <= k < bytes.len() implies #[trigger] repaint(bytes, w, m1, color)[k]
        == repaint(bytes, w, m2, color)[k] by {
        lemma_byte_coords(k, w, h);
        assert(m1(byte_column(k, w), byte_row(k, w)) == m2(byte_column(k, w), byte_row(k, w)));
    }
    assert(repaint(bytes, w, m1, color) =~= repaint(bytes, w, m2, color));
}

proof fn lemma_repaint_nothing(bytes: Seq<u8>, w: int, h: int, color: [u8; 3])
    requires
        w >= 0,
        h >= 0,
        bytes.len() == w * h * 3,
    ensures
        repaint(bytes, w, |px: int, py: int| false, color) == bytes,
{
    assert(repaint(bytes, w, |px: int, py: int| false, color) =~= bytes);
}

impl Frame {
    /// Three bytes per pixel, and both sides fit in an `i32`.
    pub closed spec fn wf(&self) -> bool {
        &&& self.data@.len() == self.width * self.height * 3
        &&& self.width <= i32::MAX
        &&& self.height <= i32::MAX
    }

    /// What well-formedness means: three bytes per pixel, sides within `i32`.
    pub proof fn lemma_wf(&self)
        requires
            self.wf(),
        ensures
            self.bytes().len() == self.width_spec() * self.height_spec() * 3,
            self.width_spec() <= i32::MAX,
            self.height_spec() <= i32::MAX,
    {
    }

    pub closed spec fn width_spec(&self) -> nat {
        self.width as nat
    }

    pub closed spec fn height_spec(&self) -> nat {
        self.height as nat
    }

    /// The pixel bytes, row by row, `R, G, B` per pixel.
    pub closed spec fn bytes(&self) -> Seq<u8> {
        self.data@
    }

    /// Wraps `data` as a `width x height` RGB frame; `None` unless `data` holds
    /// exactly three bytes per pixel and both sides fit in an `i32`.
    pub fn new(width: usize, height: usize, data: Vec<u8>) -> (r: Option<Frame>)
        ensures
            r is Some <==> (data.len() == width * height * 3 && width <= i32::MAX && height
                <= i32::MAX),
            r matches Some(f) ==> f.wf() && f.width_spec() == width && f.height_spec() == height
                && f.bytes() == data@,
    {
        if width > i32::MAX as usize || height > i32::MAX as usize {
            return None;
        }
        assert(width * height <= 0x4000_0000_0000_0000) by (nonlinear_arith)
            requires
                width <= 0x8000_0000,
                height <= 0x8000_0000,
        ;
        if width.checked_mul(height).is_none() {
            return None;
        }
        let pixels = width * height;
        if pixels.checked_mul(3).is_none() {
            return None;
        }
        if data.len() != pixels * 3 {
            return None;
        }
        Some(Frame { width, height, data })
    }

    pub fn width(&self) -> (r: usize)
        requires
            self.wf(),
        ensures
            r == self.width_spec(),
            r <= i32::MAX,
            self.bytes().len() == self.width_spec() * self.height_spec() * 3,
    {
        self.width
    }

    pub fn height(&self) -> (r: usize)
        requires
            self.wf(),
        ensures
            r == self.height_spec(),
            r <= i32::MAX,
            self.bytes().len() == self.width_spec() * self.height_spec() * 3,
    {
        self.height
    }

    pub fn as_bytes(&self) -> (r: &Vec<u8>)
        requires
            self.wf(),
        ensures
            r@ == self.bytes(),
            r.len() == self.width_spec() * self.height_spec() * 3,
    {
        &self.data
    }

    pub fn into_bytes(self) -> (r: Vec<u8>)
        ensures
            r@ == self.bytes(),
    {
        self.data
    }

    fn paint_pixel(&mut self, x: usize, y: usize, color: [u8; 3])
        requires
            old(self).wf(),
            x < old(self).width_spec(),
            y < old(self).height_spec(),
        ensures
            final(self).wf(),
            final(self).width_spec() == old(self).width_spec(),
            final(self).height_spec() == old(self).height_spec(),
            final(self).bytes() == repaint(
                old(self).bytes(),
                old(self).width_spec() as int,
                |px: int, py: int| px == x && py == y,
                color,
            ),
    {
        let w = self.width;
        let ghost h = self.height as int;
        assert(y * w + x < w * h) by (nonlinear_arith)
            requires
                x < w,
                y < h,
        ;
        let len = self.data.len();
        assert(self.data@.len() == w * h * 3);
        assert(0 <= w * h) by (nonlinear_arith)
            requires
                0 <= w,
                0 <= h,
        ;
        assert((y * w + x) * 3 + 3 <= self.data@.len());
        let idx = (y * w + x) * 3;
        let ghost old_bytes = self.data@;
        self.data.set(idx, color[0]);
        self.data.set(idx + 1, color[1]);
        self.data.set(idx + 2, color[2]);
        proof {
            let target = repaint(old_bytes, w as int, |px: int, py: int| px == x && py == y, color);
            assert forall|k: int| 0 <= k < old_bytes.len() implies #[trigger] self.data@[k] == target[k] by {
                lemma_pixel_bytes(k, w as int, x as int, y as int);
            }
            assert(self.data@ =~= target);
        }
    }

    /// Sets the pixel at column `x`, row `y` to `color` when it lies inside the
    /// frame; leaves the frame unchanged otherwise.
    pub fn set_pixel(&mut self, x: i64, y: i64, color: [u8; 3])
        requires
            old(self).wf(),
        ensures
            final(self).wf(),
            final(self).width_spec() == old(self).width_spec(),
            final(self).height_spec() == old(self).height_spec(),
            final(self).bytes() == repaint(
                old(self).bytes(),
                old(self).width_spec() as int,
                |px: int, py: int| px == x && py == y,
                color,
            ),
    {
        if x >= 0 && y >= 0 && x < self.width as i64 && y < self.height as i64 {
            self.paint_pixel(x as usize, y as usize, color);
            assert((|px: int, py: int| px == x as usize && py == y as usize) =~= (|px: int, py: int|
                px == x && py == y));
        } else {
            proof {
                let w = self.width as int;
                let h = self.height as int;
                if w > 0 {
                    lemma_repaint_same_mask(
                        self.data@,
                        w,
                        h,
                        |px: int, py: int| px == x && py == y,
                        |px: int, py: int| false,
                        color,
                    );
                    lemma_repaint_nothing(self.data@, w, h, color);
                } else {
                    assert(w * h * 3 == 0) by (nonlinear_arith)
                        requires
                            w == 0,
                    ;
                    assert(repaint(self.data@, w, |px: int, py: int| px == x && py == y, color)
                        =~= self.data@);
                }
            }
        }
    }

    /// Paints every pixel of the box `[x0, x1) x [y0, y1)` that lies inside
    /// the frame.
    pub fn fill_box(&mut self, x0: i64, x1: i64, y0: i64, y1: i64, color: [u8; 3])
        requires
            old(self).wf(),
        ensures
            final(self).wf(),
            final(self).width_spec() == old(self).width_spec(),
            final(self).height_spec() == old(self).height_spec(),
            final(self).bytes() == repaint(
                old(self).bytes(),
                old(self).width_spec() as int,
                |px: int, py: int| in_box(x0 as int, x1 as int, y0 as int, y1 as int, px, py),
                color,
            ),
    {
        let w = self.width as i64;
        let h = self.height as i64;
        let ghost old_bytes = self.data@;
        let ghost wi = w as int;
        let ghost hi = h as int;
        let xs = if x0 > 0 { x0 } else { 0 };
        let ys = if y0 > 0 { y0 } else { 0 };
        let xe = if x1 < w { x1 } else { w };
        let ye = if y1 < h { y1 } else { h };
        if xs >= xe || ys >= ye {
            proof {
                if wi > 0 {
                    lemma_repaint_same_mask(
                        old_bytes,
                        wi,
                        hi,
                        |px: int, py: int| in_box(x0 as int, x1 as int, y0 as int, y1 as int, px, py),
                        |px: int, py: int| false,
                        color,
                    );
                    lemma_repaint_nothing(old_bytes, wi, hi, color);
                } else {
                    assert(wi * hi * 3 == 0) by (nonlinear_arith)
                        requires
                            wi == 0,
                    ;
                    assert(repaint(
                        old_bytes,
                        wi,
                        |px: int, py: int| in_box(x0 as int, x1 as int, y0 as int, y1 as int, px, py),
                        color,
                    ) =~= old_bytes);
                }
            }
            return;
        }
        assert(wi > 0);
        proof {
            lemma_repaint_nothing(old_bytes, wi, hi, color);
            assert((|px: int, py: int| false) =~= (|px: int, py: int|
                in_box(xs as int, xe as int, ys as int, ys as int, px, py)));
        }
        let mut y = ys;
        while y < ye
            invariant
                self.wf(),
                self.width == w,
                self.height == h,
                wi == w,
                hi == h,
                wi > 0,
                old_bytes.len() == wi * hi * 3,
                0 <= xs < xe <= w,
                0 <= ys <= y <= ye <= h,
                self.data@ == repaint(
                    old_bytes,
                    wi,
                    |px: int, py: int| in_box(xs as int, xe as int, ys as int, y as int, px, py),
                    color,
                ),
            decreases ye - y,
        {
            let mut x = xs;
            proof {
                lemma_repaint_same_mask(
                    old_bytes,
                    wi,
                    hi,
                    |px: int, py: int| in_box(xs as int, xe as int, ys as int, y as int, px, py),
                    |px: int, py: int|
                        in_box(xs as int, xe as int, ys as int, y as int, px, py) || in_box(
                            xs as int,
                            x as int,
                            y as int,
                            y + 1,
                            px,
                            py,
                        ),
                    color,
                );
            }
            while x < xe
                invariant
                    self.wf(),
                    self.width == w,
                    self.height == h,
                    wi == w,
                    hi == h,
                    wi > 0,
                    old_bytes.len() == wi * hi * 3,
                    0 <= xs <= x <= xe <= w,
                    0 <= ys <= y < ye <= h,
                    self.data@ == repaint(
                        old_bytes,
                        wi,
                        |px: int, py: int|
                            in_box(xs as int, xe as int, ys as int, y as int, px, py) || in_box(
                                xs as int,
                                x as int,
                                y as int,
                                y + 1,
                                px,
                                py,
                            ),
                        color,
                    ),
                decreases xe - x,
            {
                let ghost before = self.data@;
                self.paint_pixel(x as usize, y as usize, color);
                proof {
                    let m_old = |px: int, py: int|
                        in_box(xs as int, xe as int, ys as int, y as int, px, py) || in_box(
                            xs as int,
                            x as int,
                            y as int,
                            y + 1,
                            px,
                            py,
                        );
                    let m_pt = |px: int, py: int| px == x as usize && py == y as usize;
                    lemma_repaint_twice(old_bytes, wi, m_old, m_pt, color);
                    lemma_repaint_same_mask(
                        old_bytes,
                        wi,
                        hi,
                        |px: int, py: int| m_old(px, py) || m_pt(px, py),
                        |px: int, py: int|
                            in_box(xs as int, xe as int, ys as int, y as int, px, py) || in_box(
                                xs as int,
                                x + 1,
                                y as int,
                                y + 1,
                                px,
                                py,
                            ),
                        color,
                    );
                }
                x = x + 1;
            }
            proof {
                lemma_repaint_same_mask(
                    old_bytes,
                    wi,
                    hi,
                    |px: int, py: int|
                        in_box(xs as int, xe as int, ys as int, y as int, px, py) || in_box(
                            xs as int,
                            x as int,
                            y as int,
                            y + 1,
                            px,
                            py,
                        ),
                    |px: int, py: int| in_box(xs as int, xe as int, ys as int, y + 1, px, py),
                    color,
                );
            }
            y = y + 1;
        }
        proof {
            lemma_repaint_same_mask(
                old_bytes,
                wi,
                hi,
                |px: int, py: int| in_box(xs as int, xe as int, ys as int, y as int, px, py),
                |px: int, py: int| in_box(x0 as int, x1 as int, y0 as int, y1 as int, px, py),
                color,
            );
        }
    }
}

/// Paints one more box onto a frame that is `base` repainted over `mask`.
fn paint_more(
    image: &mut Frame,
    Ghost(base): Ghost<Seq<u8>>,
    Ghost(mask): Ghost<spec_fn(int, int) -> bool>,
    x0: i64,
    x1: i64,
    y0: i64,
    y1: i64,
    color: [u8; 3],
)
    requires
        old(image).wf(),
        old(image).bytes() == repaint(base, old(image).width_spec() as int, mask, color),
    ensures
        final(image).wf(),
        final(image).width_spec() == old(image).width_spec(),
        final(image).height_spec() == old(image).height_spec(),
        final(image).bytes() == repaint(
            base,
            old(image).width_spec() as int,
            |px: int, py: int|
                mask(px, py) || in_box(x0 as int, x1 as int, y0 as int, y1 as int, px, py),
            color,
        ),
{
    image.fill_box(x0, x1, y0, y1, color);
    proof {
        lemma_repaint_twice(
            base,
            image.width as int,
            mask,
            |px: int, py: int| in_box(x0 as int, x1 as int, y0 as int, y1 as int, px, py),
            color,
        );
    }
}

/// Draws the two-pixel outline of `rect` in `color`, clipped to the frame.
pub fn draw_rect(image: &mut Frame, rect: Rect, color: [u8; 3])
    requires
        old(image).wf(),
    ensures
        final(image).wf(),
        final(image).width_spec() == old(image).width_spec(),
        final(image).height_spec() == old(image).height_spec(),
        final(image).bytes() == repaint(
            old(image).bytes(),
            old(image).width_spec() as int,
            |px: int, py: int| on_outline(rect, px, py),
            color,
        ),
        forall|px: int, py: int, c: int|
            0 <= px < old(image).width_spec() && 0 <= py < old(image).height_spec() && 0 <= c < 3
                ==> #[trigger] pixel_byte(final(image).bytes(), old(image).width_spec() as int, px, py, c)
                == if (rect.x <= px < rect.x + rect.width && (py == rect.y || py == rect.y + 1 || py
                == rect.y + rect.height - 2 || py == rect.y + rect.height - 1)) || (rect.y <= py
                < rect.y + rect.height && (px == rect.x || px == rect.x + 1 || px == rect.x
                + rect.width - 2 || px == rect.x + rect.width - 1)) {
                color@[c]
            } else {
                pixel_byte(old(image).bytes(), old(image).width_spec() as int, px, py, c)
            },
{
    let ghost base = image.data@;
    let ghost wi = image.width as int;
    let ghost hi = image.height as int;
    let x = rect.x as i64;
    let y = rect.y as i64;
    let w = rect.width as i64;
    let h = rect.height as i64;
    proof {
        lemma_repaint_nothing(base, wi, hi, color);
    }
    let ghost m0 = |px: int, py: int| false;
    paint_more(image, Ghost(base), Ghost(m0), x, x + w, y, y + 1, color);
    let ghost m1 = |px: int, py: int|
        m0(px, py) || in_box(x as int, (x + w) as int, y as int, (y + 1) as int, px, py);
    paint_more(image, Ghost(base), Ghost(m1), x, x + w, y + h - 1, y + h, color);
    let ghost m2 = |px: int, py: int|
        m1(px, py) || in_box(x as int, (x + w) as int, (y + h - 1) as int, (y + h) as int, px, py);
    paint_more(image, Ghost(base), Ghost(m2), x, x + w, y + 1, y + 2, color);
    let ghost m3 = |px: int, py: int|
        m2(px, py) || in_box(x as int, (x + w) as int, (y + 1) as int, (y + 2) as int, px, py);
    paint_more(image, Ghost(base), Ghost(m3), x, x + w, y + h - 2, y + h - 1, color);
    let ghost m4 = |px: int, py: int|
        m3(px, py) || in_box(x as int, (x + w) as int, (y + h - 2) as int, (y + h - 1) as int, px, py);
    paint_more(image, Ghost(base), Ghost(m4), x, x + 1, y, y + h, color);
    let ghost m5 = |px: int, py: int|
        m4(px, py) || in_box(x as int, (x + 1) as int, y as int, (y + h) as int, px, py);
    paint_more(image, Ghost(base), Ghost(m5), x + w - 1, x + w, y, y + h, color);
    let ghost m6 = |px: int, py: int|
        m5(px, py) || in_box((x + w - 1) as int, (x + w) as int, y as int, (y + h) as int, px, py);
    paint_more(image, Ghost(base), Ghost(m6), x + 1, x + 2, y, y + h, color);
    let ghost m7 = |px: int, py: int|
        m6(px, py) || in_box((x + 1) as int, (x + 2) as int, y as int, (y + h) as int, px, py);
    paint_more(image, Ghost(base), Ghost(m7), x + w - 2, x + w - 1, y, y + h, color);
    let ghost m8 = |px: int, py: int|
        m7(px, py) || in_box((x + w - 2) as int, (x + w - 1) as int, y as int, (y + h) as int, px, py);
    proof {
        if wi > 0 {
            lemma_repaint_same_mask(base, wi, hi, m8, |px: int, py: int| on_outline(rect, px, py), color);
        } else {
            assert(wi * hi * 3 == 0);
            assert(repaint(base, wi, m8, color) =~= repaint(
                base,
                wi,
                |px: int, py: int| on_outline(rect, px, py),
                color,
            ));
        }
        image.lemma_wf();
        lemma_repaint_pixels(base, wi, hi, |px: int, py: int| on_outline(rect, px, py), color);
    }
}

/// Fills `rect`, clipped to the frame, with `color`: every pixel of the
/// frame in columns `rect.x .. rect.x + width` and rows
/// `rect.y .. rect.y + height` takes the colour, every other keeps its value.
pub fn draw_filled_rect(image: &mut Frame, rect: Rect, color: [u8; 3])
    requires
        old(image).wf(),
    ensures
        final(image).wf(),
        final(image).width_spec() == old(image).width_spec(),
        final(image).height_spec() == old(image).height_spec(),
        final(image).bytes() == repaint(
            old(image).bytes(),
            old(image).width_spec() as int,
            |px: int, py: int| in_rect(rect, px, py),
            color,
        ),
        forall|px: int, py: int, c: int|
            0 <= px < old(image).width_spec() && 0 <= py < old(image).height_spec() && 0 <= c < 3
                ==> #[trigger] pixel_byte(final(image).bytes(), old(image).width_spec() as int, px, py, c)
                == if rect.x <= px < rect.x + rect.width && rect.y <= py < rect.y + rect.height {
                color@[c]
            } else {
                pixel_byte(old(image).bytes(), old(image).width_spec() as int, px, py, c)
            },
{
    let ghost base = image.bytes();
    let x = rect.x as i64;
    let y = rect.y as i64;
    image.fill_box(x, x + rect.width as i64, y, y + rect.height as i64, color);
    assert((|px: int, py: int|
        in_box(x as int, (x + rect.width as i64) as int, y as int, (y + rect.height as i64) as int, px, py))
        =~= (|px: int, py: int| in_rect(rect, px, py)));
    proof {
        image.lemma_wf();
        lemma_repaint_pixels(
            base,
            image.width_spec() as int,
            image.height_spec() as int,
            |px: int, py: int| in_rect(rect, px, py),
            color,
        );
    }
}

/// Filling a box, pixel by pixel: each channel of a pixel in columns
/// `r.x .. r.x + width` and rows `r.y .. r.y + height` takes the colour's
/// channel, each channel of any other pixel keeps its byte.
pub proof fn lemma_fill_pixels(bytes: Seq<u8>, w: int, h: int, r: Rect, color: [u8; 3])
    requires
        w >= 0,
        h >= 0,
        bytes.len() == w * h * 3,
    ensures
        forall|px: int, py: int, c: int|
            0 <= px < w && 0 <= py < h && 0 <= c < 3 ==> pixel_byte(
                repaint(bytes, w, |px: int, py: int| in_rect(r, px, py), color),
                w,
                px,
                py,
                c,
            ) == if r.x <= px < r.x + r.width && r.y <= py < r.y + r.height {
                color@[c]
            } else {
                #[trigger] pixel_byte(bytes, w, px, py, c)
            },
{
    lemma_repaint_pixels(bytes, w, h, |px: int, py: int| in_rect(r, px, py), color);
}

/// Byte `c` (0 red, 1 green, 2 blue) of pixel `(px, py)` in a frame of the
/// given width stored row by row.
pub open spec fn pixel_byte(bytes: Seq<u8>, width: int, px: int, py: int, c: int) -> u8 {
    bytes[(py * width + px) * 3 + c]
}

/// Repainting, pixel by pixel: each channel of a pixel in the mask takes the
/// colour's channel, each channel of any other pixel keeps its byte.
pub proof fn lemma_repaint_pixels(
    bytes: Seq<u8>,
    w: int,
    h: int,
    mask: spec_fn(int, int) -> bool,
    color: [u8; 3],
)
    requires
        w >= 0,
        h >= 0,
        bytes.len() == w * h * 3,
    ensures
        forall|px: int, py: int, c: int|
            0 <= px < w && 0 <= py < h && 0 <= c < 3 ==> #[trigger] pixel_byte(
                repaint(bytes, w, mask, color),
                w,
                px,
                py,
                c,
            ) == if mask(px, py) {
                color@[c]
            } else {
                pixel_byte(bytes, w, px, py, c)
            },
{
    assert forall|px: int, py: int, c: int| 0 <= px < w && 0 <= py < h && 0 <= c < 3 implies #[trigger] pixel_byte(
        repaint(bytes, w, mask, color),
        w,
        px,
        py,
        c,
    ) == if mask(px, py) {
        color@[c]
    } else {
        pixel_byte(bytes, w, px, py, c)
    } by {
        lemma_repaint_pixel(bytes, w, h, mask, color, px, py, c);
    }
}

/// Drawing is idempotent: painting the same pixels the same colour twice
/// gives what painting them once gives.
pub proof fn lemma_repaint_idempotent(
    bytes: Seq<u8>,
    width: int,
    mask: spec_fn(int, int) -> bool,
    color: [u8; 3],
)
    ensures
        repaint(repaint(bytes, width, mask, color), width, mask, color) == repaint(
            bytes,
            width,
            mask,
            color,
        ),
{
    assert(repaint(repaint(bytes, width, mask, color), width, mask, color) =~= repaint(
        bytes,
        width,
        mask,
        color,
    ));
}

/// A box at least two pixels wide and high keeps its outline inside itself.
pub proof fn lemma_outline_inside_box(r: Rect, px: int, py: int)
    requires
        r.width >= 2,
        r.height >= 2,
        on_outline(r, px, py),
    ensures
        in_rect(r, px, py),
{
}

/// Repainting changes only the pixels of the mask: every byte of a pixel
/// outside the mask keeps its value, every byte of a pixel inside takes the
/// colour's matching channel.
pub proof fn lemma_repaint_pixel(
    bytes: Seq<u8>,
    w: int,
    h: int,
    mask: spec_fn(int, int) -> bool,
    color: [u8; 3],
    x: int,
    y: int,
    c: int,
)
    requires
        w > 0,
        h >= 0,
        bytes.len() == w * h * 3,
        0 <= x < w,
        0 <= y < h,
        0 <= c < 3,
    ensures
        (y * w + x) * 3 + c < bytes.len(),
        repaint(bytes, w, mask, color)[(y * w + x) * 3 + c] == if mask(x, y) {
            color@[c]
        } else {
            bytes[(y * w + x) * 3 + c]
        },
{
    let k = (y * w + x) * 3 + c;
    assert(y * w + x < w * h) by (nonlinear_arith)
        requires
            0 <= x < w,
            0 <= y < h,
    ;
    lemma_pixel_bytes(k, w, x, y);
    vstd::arithmetic::div_mod::lemma_fundamental_div_mod_converse(k, 3, y * w + x, c);
}

} // verus!
