use vstd::prelude::*;

verus! {

/// An axis-aligned box in pixel coordinates: top-left corner, width, height.
#[derive(Clone, Copy, Debug, PartialEq, Eq, Structural)]
pub struct Rect {
    pub x: i32,
    pub y: i32,
    pub width: i32,
    pub height: i32,
}

impl Rect {
    /// First column to the right of the box, as an integer.
    pub open spec fn right_spec(self) -> int {
        self.x + self.width
    }

    /// First row below the box, as an integer.
    pub open spec fn bottom_spec(self) -> int {
        self.y + self.height
    }

    /// Signed area of the box, as an integer.
    pub open spec fn area_spec(self) -> int {
        self.width * self.height
    }

    pub fn new(x: i32, y: i32, width: i32, height: i32) -> (r: Rect)
        ensures
            r.x == x,
            r.y == y,
            r.width == width,
            r.height == height,
    {
        Rect { x, y, width, height }
    }

    /// `x + width`; the sum must fit in an `i32`.
    pub fn right(&self) -> (r: i32)
        requires
            i32::MIN <= self.right_spec() <= i32::MAX,
        ensures
            r == self.right_spec(),
    {
        self.x + self.width
    }

    /// `y + height`; the sum must fit in an `i32`.
    pub fn bottom(&self) -> (r: i32)
        requires
            i32::MIN <= self.bottom_spec() <= i32::MAX,
        ensures
            r == self.bottom_spec(),
    {
        self.y + self.height
    }

    /// `width * height`; the product must fit in an `i32`.
    pub fn area(&self) -> (r: i32)
        requires
            i32::MIN <= self.area_spec() <= i32::MAX,
        ensures
            r == self.area_spec(),
    {
        self.width * self.height
    }
}

impl Default for Rect {
    fn default() -> (r: Rect)
        ensures
            r == (Rect { x: 0, y: 0, width: 0, height: 0 }),
    {
        Rect { x: 0, y: 0, width: 0, height: 0 }
    }
}


/// The two integer quantities that intersection-over-union is made of.
#[derive(Clone, Copy, Debug, PartialEq, Eq, Structural)]
pub struct OverlapTerms {
    /// Area of the common part of the two boxes.
    pub intersection: i128,
    /// `area(a) + area(b) - intersection`.
    pub union: i128,
}

pub open spec fn max_int(a: int, b: int) -> int {
    if a >= b { a } else { b }
}

pub open spec fn min_int(a: int, b: int) -> int {
    if a <= b { a } else { b }
}

/// Intersection and union areas of two boxes, or `None` when their common
/// part is empty (its width or its height is not positive).
pub open spec fn overlap_terms_spec(a: Rect, b: Rect) -> Option<(int, int)> {
    let x1 = max_int(a.x as int, b.x as int);
    let y1 = max_int(a.y as int, b.y as int);
    let x2 = min_int(a.right_spec(), b.right_spec());
    let y2 = min_int(a.bottom_spec(), b.bottom_spec());
    if x2 <= x1 || y2 <= y1 {
        None
    } else {
        let inter = (x2 - x1) * (y2 - y1);
        Some((inter, a.area_spec() + b.area_spec() - inter))
    }
}

fn max_i64(a: i64, b: i64) -> (r: i64)
    ensures
        r == max_int(a as int, b as int),
{
    if a >= b { a } else { b }
}

fn min_i64(a: i64, b: i64) -> (r: i64)
    ensures
        r == min_int(a as int, b as int),
{
    if a <= b { a } else { b }
}

/// Integer part of intersection-over-union: the common part of the two boxes
/// and the area they cover together. `None` means the boxes do not overlap,
/// so their IoU is 0. Computed without overflow for every pair of boxes.
pub fn overlap_terms(a: Rect, b: Rect) -> (r: Option<OverlapTerms>)
    ensures
        match overlap_terms_spec(a, b) {
            None => r is None,
            Some((i, u)) => r == Some(OverlapTerms { intersection: i as i128, union: u as i128 }),
        },
        r is None <==> (forall|px: int, py: int|
            !(#[trigger] covers(a, px, py) && #[trigger] covers(b, px, py))),
{
    proof {
        lemma_overlap_none_iff_disjoint(a, b);
    }
    let x1 = max_i64(a.x as i64, b.x as i64);
    let y1 = max_i64(a.y as i64, b.y as i64);
    let x2 = min_i64(a.x as i64 + a.width as i64, b.x as i64 + b.width as i64);
    let y2 = min_i64(a.y as i64 + a.height as i64, b.y as i64 + b.height as i64);
    if x2 <= x1 || y2 <= y1 {
        return None;
    }
    let dx = (x2 - x1) as i128;
    let dy = (y2 - y1) as i128;
    assert(0 < dx <= 0x2_0000_0000 && 0 < dy <= 0x2_0000_0000);
    assert(dx * dy <= 0x2_0000_0000 * 0x2_0000_0000) by (nonlinear_arith)
        requires
            0 < dx <= 0x2_0000_0000,
            0 < dy <= 0x2_0000_0000,
    ;
    assert(dx * dy > 0) by (nonlinear_arith)
        requires
            0 < dx,
            0 < dy,
    ;
    let inter = dx * dy;
    let wa = a.width as i128;
    let ha = a.height as i128;
    let wb = b.width as i128;
    let hb = b.height as i128;
    assert(-0x4000_0000_0000_0000 <= wa * ha <= 0x4000_0000_0000_0000) by (nonlinear_arith)
        requires
            -0x8000_0000 <= wa < 0x8000_0000,
            -0x8000_0000 <= ha < 0x8000_0000,
    ;
    assert(-0x4000_0000_0000_0000 <= wb * hb <= 0x4000_0000_0000_0000) by (nonlinear_arith)
        requires
            -0x8000_0000 <= wb < 0x8000_0000,
            -0x8000_0000 <= hb < 0x8000_0000,
    ;
    let union = wa * ha + wb * hb - inter;
    Some(OverlapTerms { intersection: inter, union })
}

/// Overlap is symmetric: swapping the boxes changes neither term.
pub proof fn lemma_overlap_symmetric(a: Rect, b: Rect)
    ensures
        overlap_terms_spec(a, b) == overlap_terms_spec(b, a),
{
}

/// For boxes of non-negative size, an overlap has a positive intersection that
/// is at most the area of each box and at most the union, so the IoU lies in (0, 1].
pub proof fn lemma_overlap_bounds(a: Rect, b: Rect)
    requires
        a.width >= 0,
        a.height >= 0,
        b.width >= 0,
        b.height >= 0,
    ensures
        overlap_terms_spec(a, b) matches Some((i, u)) ==> {
            &&& 0 < i
            &&& i <= a.area_spec()
            &&& i <= b.area_spec()
            &&& i <= u
        },
{
    let x1 = max_int(a.x as int, b.x as int);
    let y1 = max_int(a.y as int, b.y as int);
    let x2 = min_int(a.right_spec(), b.right_spec());
    let y2 = min_int(a.bottom_spec(), b.bottom_spec());
    if !(x2 <= x1 || y2 <= y1) {
        let dx = x2 - x1;
        let dy = y2 - y1;
        assert(dx <= a.width && dx <= b.width);
        assert(dy <= a.height && dy <= b.height);
        assert(0 < dx * dy) by (nonlinear_arith)
            requires
                0 < dx,
                0 < dy,
        ;
        assert(dx * dy <= (a.width as int) * (a.height as int)) by (nonlinear_arith)
            requires
                0 < dx <= a.width,
                0 < dy <= a.height,
        ;
        assert(dx * dy <= (b.width as int) * (b.height as int)) by (nonlinear_arith)
            requires
                0 < dx <= b.width,
                0 < dy <= b.height,
        ;
    }
}

/// A box of positive size overlaps itself completely: intersection equals union.
pub proof fn lemma_overlap_self(a: Rect)
    requires
        a.width > 0,
        a.height > 0,
    ensures
        overlap_terms_spec(a, a) == Some((a.area_spec(), a.area_spec())),
{
}

/// Whether pixel `(px, py)` lies in box `r`: columns `r.x .. r.x + width`,
/// rows `r.y .. r.y + height`.
pub open spec fn covers(r: Rect, px: int, py: int) -> bool {
    &&& r.x <= px < r.x + r.width
    &&& r.y <= py < r.y + r.height
}

/// Two boxes have no overlap terms exactly when no pixel lies in both of
/// them; when they have, the union is the two areas less the intersection.
pub proof fn lemma_overlap_none_iff_disjoint(a: Rect, b: Rect)
    ensures
        overlap_terms_spec(a, b) is None <==> (forall|px: int, py: int|
            !(#[trigger] covers(a, px, py) && #[trigger] covers(b, px, py))),
        overlap_terms_spec(a, b) matches Some((i, u)) ==> u == a.width * a.height + b.width
            * b.height - i,
{
    let x1 = max_int(a.x as int, b.x as int);
    let y1 = max_int(a.y as int, b.y as int);
    let x2 = min_int(a.right_spec(), b.right_spec());
    let y2 = min_int(a.bottom_spec(), b.bottom_spec());
    if x2 <= x1 || y2 <= y1 {
        assert forall|px: int, py: int|
            !(#[trigger] covers(a, px, py) && #[trigger] covers(b, px, py)) by {
            if covers(a, px, py) && covers(b, px, py) {
                assert(x1 <= px < x2);
                assert(y1 <= py < y2);
            }
        }
    } else {
        assert(covers(a, x1, y1) && covers(b, x1, y1));
    }
}

/// A box `b` of positive size lying inside box `a` overlaps it in all of `b`:
/// the intersection is the area of `b` and the union the area of `a`, in
/// either order of the two boxes.
pub proof fn lemma_overlap_contained(a: Rect, b: Rect)
    requires
        a.x <= b.x,
        b.x + b.width <= a.x + a.width,
        a.y <= b.y,
        b.y + b.height <= a.y + a.height,
        b.width > 0,
        b.height > 0,
    ensures
        overlap_terms_spec(a, b) == Some(((b.width * b.height) as int, (a.width * a.height) as int)),
        overlap_terms_spec(b, a) == Some(((b.width * b.height) as int, (a.width * a.height) as int)),
{
}

/// Height of the label drawn above a box.
pub const LABEL_HEIGHT: i32 = 20;

/// Width of the label drawn above a box.
pub const LABEL_WIDTH: i32 = 140;

/// Background box of the label drawn above `rect`: `LABEL_WIDTH` wide,
/// `LABEL_HEIGHT` high, its bottom edge on the top edge of `rect`.
pub fn label_box(rect: Rect) -> (r: Rect)
    requires
        rect.y - LABEL_HEIGHT >= i32::MIN,
    ensures
        r == (Rect { x: rect.x, y: (rect.y - LABEL_HEIGHT) as i32, width: LABEL_WIDTH, height: LABEL_HEIGHT }),
        r.bottom_spec() == rect.y,
{
    Rect::new(rect.x, rect.y - LABEL_HEIGHT, LABEL_WIDTH, LABEL_HEIGHT)
}

} // verus!
