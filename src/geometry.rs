use vstd::prelude::*;

verus! {

/// An axis-aligned box with corners `(x1, y1)` (top left) and `(x2, y2)`
/// (bottom right). Callers are expected to keep `x1 <= x2` and `y1 <= y2`,
/// but nothing here relies on it.
#[derive(Clone, Copy, Debug, PartialEq, Eq, Structural)]
pub struct BBox {
    pub x1: i32,
    pub y1: i32,
    pub x2: i32,
    pub y2: i32,
}

/// An overlap threshold, the fraction `num / den`.
#[derive(Clone, Copy, Debug, PartialEq, Eq, Structural)]
pub struct Threshold {
    pub num: i32,
    pub den: u32,
}

impl Threshold {
    /// A threshold is a number only when its denominator is not zero.
    pub open spec fn wf(self) -> bool {
        self.den > 0
    }
}

pub open spec fn max_int(a: int, b: int) -> int {
    if a >= b { a } else { b }
}

pub open spec fn min_int(a: int, b: int) -> int {
    if a <= b { a } else { b }
}

/// Signed area of a box: negative where a corner pair is inverted.
pub open spec fn area(b: BBox) -> int {
    (b.x2 - b.x1) * (b.y2 - b.y1)
}

/// Area shared by two boxes, with width and height clamped at zero.
pub open spec fn inter_area(a: BBox, b: BBox) -> int {
    max_int(min_int(a.x2 as int, b.x2 as int) - max_int(a.x1 as int, b.x1 as int), 0)
        * max_int(min_int(a.y2 as int, b.y2 as int) - max_int(a.y1 as int, b.y1 as int), 0)
}

/// Area covered by either box: the two areas less what they share.
pub open spec fn union_area(a: BBox, b: BBox) -> int {
    area(a) + area(b) - inter_area(a, b)
}

/// Intersection over union as a fraction `(num, den)` with a positive
/// denominator; a union of zero area gives the value zero.
pub open spec fn iou_spec(a: BBox, b: BBox) -> (int, int) {
    let u = union_area(a, b);
    if u == 0 {
        (0, 1)
    } else if u > 0 {
        (inter_area(a, b), u)
    } else {
        (-inter_area(a, b), -u)
    }
}

/// `iou(a, b) > t`, compared exactly on fractions with positive denominators.
pub open spec fn iou_exceeds_spec(a: BBox, b: BBox, t: Threshold) -> bool {
    let (n, d) = iou_spec(a, b);
    n * (t.den as int) > (t.num as int) * d
}

/// `inner` lies within `outer` or on its boundary, on all four sides.
pub open spec fn contains_spec(outer: BBox, inner: BBox) -> bool {
    outer.x1 <= inner.x1 && outer.y1 <= inner.y1 && outer.x2 >= inner.x2 && outer.y2 >= inner.y2
}

proof fn lemma_extent_product_bounds(w: int, h: int)
    requires
        -0x1_0000_0000 <= w <= 0x1_0000_0000,
        -0x1_0000_0000 <= h <= 0x1_0000_0000,
    ensures
        -0x1_0000_0000_0000_0000 <= w * h <= 0x1_0000_0000_0000_0000,
{
    assert(-0x1_0000_0000_0000_0000 <= w * h <= 0x1_0000_0000_0000_0000) by (nonlinear_arith)
        requires
            -0x1_0000_0000 <= w <= 0x1_0000_0000,
            -0x1_0000_0000 <= h <= 0x1_0000_0000,
    ;
}

/// Area of `b`, as in `area`.
pub fn box_area(b: &BBox) -> (r: i128)
    ensures
        r == area(*b),
        -0x1_0000_0000_0000_0000 <= r <= 0x1_0000_0000_0000_0000,
{
    let w = b.x2 as i64 - b.x1 as i64;
    let h = b.y2 as i64 - b.y1 as i64;
    proof {
        lemma_extent_product_bounds(w as int, h as int);
    }
    w as i128 * h as i128
}

/// Area shared by `a` and `b`, as in `inter_area`.
pub fn intersection_area(a: &BBox, b: &BBox) -> (r: i128)
    ensures
        r == inter_area(*a, *b),
        0 <= r <= 0x1_0000_0000_0000_0000,
{
    let left = if a.x1 >= b.x1 { a.x1 } else { b.x1 };
    let top = if a.y1 >= b.y1 { a.y1 } else { b.y1 };
    let right = if a.x2 <= b.x2 { a.x2 } else { b.x2 };
    let bottom = if a.y2 <= b.y2 { a.y2 } else { b.y2 };
    let w: i64 = if right as i64 - left as i64 > 0 { right as i64 - left as i64 } else { 0 };
    let h: i64 = if bottom as i64 - top as i64 > 0 { bottom as i64 - top as i64 } else { 0 };
    proof {
        lemma_extent_product_bounds(w as int, h as int);
        assert(0 <= w * h) by (nonlinear_arith)
            requires
                0 <= w,
                0 <= h,
        ;
    }
    w as i128 * h as i128
}

/// Intersection over union of `a` and `b` as an exact fraction
/// `(numerator, denominator)`, the denominator positive. Where the union has
/// zero area the value is zero, written `(0, 1)`.
pub fn iou(a: &BBox, b: &BBox) -> (r: (i128, i128))
    ensures
        r.0 == iou_spec(*a, *b).0,
        r.1 == iou_spec(*a, *b).1,
        r.1 > 0,
        -0x4_0000_0000_0000_0000 <= r.0 <= 0x4_0000_0000_0000_0000,
        r.1 <= 0x4_0000_0000_0000_0000,
{
    let inter = intersection_area(a, b);
    let u = box_area(a) + box_area(b) - inter;
    if u == 0 {
        (0, 1)
    } else if u > 0 {
        (inter, u)
    } else {
        (-inter, -u)
    }
}

/// Whether the intersection over union of `a` and `b` is above `t`.
pub fn iou_exceeds(a: &BBox, b: &BBox, t: Threshold) -> (r: bool)
    requires
        t.wf(),
    ensures
        r == iou_exceeds_spec(*a, *b, t),
{
    let (n, d) = iou(a, b);
    proof {
        assert(-0x4_0000_0000_0000_0000_0000_0000 <= n * (t.den as int) <= 0x4_0000_0000_0000_0000_0000_0000)
            by (nonlinear_arith)
            requires
                -0x4_0000_0000_0000_0000 <= n <= 0x4_0000_0000_0000_0000,
                0 <= t.den <= 0x1_0000_0000,
        ;
        assert(-0x4_0000_0000_0000_0000_0000_0000 <= (t.num as int) * d <= 0x4_0000_0000_0000_0000_0000_0000)
            by (nonlinear_arith)
            requires
                0 < d <= 0x4_0000_0000_0000_0000,
                -0x1_0000_0000 <= t.num <= 0x1_0000_0000,
        ;
    }
    n * (t.den as i128) > (t.num as i128) * d
}

/// Whether `inner` lies within `outer` or on its boundary on all four sides.
/// Equal boxes contain each other.
pub fn is_contained(outer: &BBox, inner: &BBox) -> (r: bool)
    ensures
        r == contains_spec(*outer, *inner),
{
    outer.x1 <= inner.x1 && outer.y1 <= inner.y1 && outer.x2 >= inner.x2 && outer.y2 >= inner.y2
}

} // verus!
