//! Rectangles, affine matrices, and the way from page space to viewport space.

use crate::rounding;
use crate::rounding::INFINITE;
use crate::single;
use crate::single::{Single, ONE, SIGN};
use vstd::arithmetic::mul;
use vstd::arithmetic::power2;
use vstd::prelude::*;

verus! {

/// The bits of 1000.0, the number of device units in a point.
pub const THOUSAND: u32 = 0x447a_0000;

/// A rectangle, in page space or in viewport space.
#[derive(Clone, Copy, Debug, PartialEq, Eq, Structural)]
pub struct RectF {
    pub left: Single,
    pub top: Single,
    pub right: Single,
    pub bottom: Single,
}

impl RectF {
    /// The rectangle between two opposite corners, its top above its bottom
    /// in a space whose y axis points down.
    pub open spec fn spanned(first: (Single, Single), second: (Single, Single)) -> RectF {
        RectF {
            left: first.0.lesser(second.0),
            top: first.1.lesser(second.1),
            right: first.0.greater(second.0),
            bottom: first.1.greater(second.1),
        }
    }

    /// The rectangle between two opposite corners.
    pub fn span(first: (Single, Single), second: (Single, Single)) -> (rect: RectF)
        ensures
            rect == RectF::spanned(first, second),
    {
        RectF {
            left: first.0.min(second.0),
            top: first.1.min(second.1),
            right: first.0.max(second.0),
            bottom: first.1.max(second.1),
        }
    }
}

/// An affine matrix: `(x, y)` goes to `(a x + c y + e, b x + d y + f)`.
#[derive(Clone, Copy, Debug, PartialEq, Eq, Structural)]
pub struct Matrix {
    pub a: Single,
    pub b: Single,
    pub c: Single,
    pub d: Single,
    pub e: Single,
    pub f: Single,
}

impl Matrix {
    /// The identity matrix.
    pub open spec fn unit() -> Matrix {
        let one = Single::of_bits(ONE);
        let zero = Single::of_bits(0);
        Matrix { a: one, b: zero, c: zero, d: one, e: zero, f: zero }
    }

    /// Where a point goes.
    pub open spec fn image(self, x: Single, y: Single) -> (Single, Single) {
        (
            self.a.product(x).sum(self.c.product(y)).sum(self.e),
            self.b.product(x).sum(self.d.product(y)).sum(self.f),
        )
    }

    /// The matrix that applies `inner` and then `self`.
    pub open spec fn after(self, inner: Matrix) -> Matrix {
        Matrix {
            a: self.a.product(inner.a).sum(self.c.product(inner.b)),
            b: self.b.product(inner.a).sum(self.d.product(inner.b)),
            c: self.a.product(inner.c).sum(self.c.product(inner.d)),
            d: self.b.product(inner.c).sum(self.d.product(inner.d)),
            e: self.a.product(inner.e).sum(self.c.product(inner.f)).sum(self.e),
            f: self.b.product(inner.e).sum(self.d.product(inner.f)).sum(self.f),
        }
    }

    /// The box around the images of the four corners of a box, in a space
    /// whose y axis points up. Coordinates that are not numbers are left out.
    pub open spec fn image_box(self, area: RectF) -> RectF {
        let (x1, y1) = self.image(area.left, area.bottom);
        let (x2, y2) = self.image(area.left, area.top);
        let (x3, y3) = self.image(area.right, area.bottom);
        let (x4, y4) = self.image(area.right, area.top);
        RectF {
            left: Single::least_of(x1, x2, x3, x4),
            top: Single::greatest_of(y1, y2, y3, y4),
            right: Single::greatest_of(x1, x2, x3, x4),
            bottom: Single::least_of(y1, y2, y3, y4),
        }
    }

    /// The identity matrix.
    pub fn identity() -> (matrix: Matrix)
        ensures
            matrix == Matrix::unit(),
    {
        let one: Single = Single::from_bits(ONE);
        let zero: Single = Single::from_bits(0);
        Matrix { a: one, b: zero, c: zero, d: one, e: zero, f: zero }
    }

    /// Where a point goes.
    pub fn apply(&self, x: Single, y: Single) -> (point: (Single, Single))
        ensures
            point == self.image(x, y),
    {
        (
            self.a.times(x).plus(self.c.times(y)).plus(self.e),
            self.b.times(x).plus(self.d.times(y)).plus(self.f),
        )
    }

    /// The box around the images of the four corners of a box.
    pub fn apply_to_box(&self, area: &RectF) -> (lifted: RectF)
        ensures
            lifted == self.image_box(*area),
    {
        let (x1, y1) = self.apply(area.left, area.bottom);
        let (x2, y2) = self.apply(area.left, area.top);
        let (x3, y3) = self.apply(area.right, area.bottom);
        let (x4, y4) = self.apply(area.right, area.top);
        RectF {
            left: Single::min_of(x1, x2, x3, x4),
            top: Single::max_of(y1, y2, y3, y4),
            right: Single::max_of(x1, x2, x3, x4),
            bottom: Single::min_of(y1, y2, y3, y4),
        }
    }
}

/// Compose two affine matrices: the result applies `inner`, then `outer`.
pub fn compose_matrix(outer: &Matrix, inner: &Matrix) -> (composed: Matrix)
    ensures
        composed == outer.after(*inner),
{
    Matrix {
        a: outer.a.times(inner.a).plus(outer.c.times(inner.b)),
        b: outer.b.times(inner.a).plus(outer.d.times(inner.b)),
        c: outer.a.times(inner.c).plus(outer.c.times(inner.d)),
        d: outer.b.times(inner.c).plus(outer.d.times(inner.d)),
        e: outer.a.times(inner.e).plus(outer.c.times(inner.f)).plus(outer.e),
        f: outer.b.times(inner.e).plus(outer.d.times(inner.f)).plus(outer.f),
    }
}

/// A point on the device, in thousandths of a point from the top left corner.
#[derive(Clone, Copy, Debug, PartialEq, Eq, Structural)]
pub struct DevicePoint {
    pub x: i32,
    pub y: i32,
}

impl DevicePoint {
    /// The point in viewport space.
    pub open spec fn in_viewport(self) -> (Single, Single) {
        let scale = Single::of_bits(THOUSAND);
        (
            Single::of_int(self.x as int).quotient(scale),
            Single::of_int(self.y as int).quotient(scale),
        )
    }

    /// The point in viewport space (top-left origin, 72 DPI).
    pub fn to_viewport(&self) -> (point: (Single, Single))
        ensures
            point == self.in_viewport(),
    {
        let scale: Single = Single::from_bits(THOUSAND);
        (
            Single::from_i32(self.x).divided_by(scale),
            Single::from_i32(self.y).divided_by(scale),
        )
    }
}

/// An affine transform from page space to viewport space, derived once from
/// where three points of the page come to lie.
#[derive(Clone, Copy, Debug, PartialEq, Eq, Structural)]
pub struct ViewportTransform {
    pub a: Single,
    pub b: Single,
    pub c: Single,
    pub d: Single,
    pub e: Single,
    pub f: Single,
}

impl ViewportTransform {
    /// Where a point of the page lies in the viewport.
    pub open spec fn image(self, page_x: Single, page_y: Single) -> (Single, Single) {
        (
            self.a.product(page_x).sum(self.b.product(page_y)).sum(self.e),
            self.c.product(page_x).sum(self.d.product(page_y)).sum(self.f),
        )
    }

    /// Where a rectangle of the page lies in the viewport.
    pub open spec fn image_rect(self, page_bounds: RectF) -> RectF {
        RectF::spanned(
            self.image(page_bounds.left, page_bounds.bottom),
            self.image(page_bounds.right, page_bounds.top),
        )
    }

    /// The transform that three probes define.
    pub open spec fn probed(
        origin: DevicePoint,
        unit_x: DevicePoint,
        unit_y: DevicePoint,
    ) -> ViewportTransform {
        let (e, f) = origin.in_viewport();
        ViewportTransform {
            a: unit_x.in_viewport().0.difference(e),
            b: unit_y.in_viewport().0.difference(e),
            c: unit_x.in_viewport().1.difference(f),
            d: unit_y.in_viewport().1.difference(f),
            e,
            f,
        }
    }

    /// The transform that takes the page's origin and its two unit points to
    /// where they were found to lie.
    pub fn from_probes(
        origin: &DevicePoint,
        unit_x: &DevicePoint,
        unit_y: &DevicePoint,
    ) -> (transform: ViewportTransform)
        ensures
            transform == ViewportTransform::probed(*origin, *unit_x, *unit_y),
    {
        let (e, f) = origin.to_viewport();
        let (ax_e, cx_f) = unit_x.to_viewport();
        let (by_e, dy_f) = unit_y.to_viewport();
        ViewportTransform {
            a: ax_e.minus(e),
            b: by_e.minus(e),
            c: cx_f.minus(f),
            d: dy_f.minus(f),
            e,
            f,
        }
    }

    /// Transform a single point from page space to viewport space.
    pub fn transform_point(&self, page_x: Single, page_y: Single) -> (point: (Single, Single))
        ensures
            point == self.image(page_x, page_y),
    {
        (
            self.a.times(page_x).plus(self.b.times(page_y)).plus(self.e),
            self.c.times(page_x).plus(self.d.times(page_y)).plus(self.f),
        )
    }

    /// Transform a bounding rect from page space to viewport space.
    pub fn transform_bounds(&self, page_bounds: &RectF) -> (rect: RectF)
        ensures
            rect == self.image_rect(*page_bounds),
    {
        let lower_left: (Single, Single) = self.transform_point(
            page_bounds.left,
            page_bounds.bottom,
        );
        let upper_right: (Single, Single) = self.transform_point(
            page_bounds.right,
            page_bounds.top,
        );
        RectF::span(lower_left, upper_right)
    }
}

impl Matrix {
    /// Whether every entry is a finite number.
    pub open spec fn is_finite(self) -> bool {
        &&& self.a.is_finite() && self.b.is_finite() && self.c.is_finite()
        &&& self.d.is_finite() && self.e.is_finite() && self.f.is_finite()
    }

    /// Whether two matrices are finite and have entries of the same values.
    pub open spec fn same_values(self, other: Matrix) -> bool {
        &&& self.a.same_value(other.a) && self.b.same_value(other.b)
        &&& self.c.same_value(other.c) && self.d.same_value(other.d)
        &&& self.e.same_value(other.e) && self.f.same_value(other.f)
    }
}

/// Whether `p x + q y` is computed without rounding.
pub open spec fn exact_pair(p: Single, x: Single, q: Single, y: Single) -> bool {
    &&& p.product_is_exact(x)
    &&& q.product_is_exact(y)
    &&& p.product(x).sum_is_exact(q.product(y))
}

/// Whether `p x + q y + r` is computed without rounding.
pub open spec fn exact_affine(p: Single, x: Single, q: Single, y: Single, r: Single) -> bool {
    &&& exact_pair(p, x, q, y)
    &&& p.product(x).sum(q.product(y)).sum_is_exact(r)
}

impl Matrix {
    /// Whether the image of a point is computed without rounding.
    pub open spec fn image_is_exact(self, x: Single, y: Single) -> bool {
        &&& exact_affine(self.a, x, self.c, y, self.e)
        &&& exact_affine(self.b, x, self.d, y, self.f)
    }

    /// Whether a composition is computed without rounding.
    pub open spec fn after_is_exact(self, inner: Matrix) -> bool {
        &&& exact_pair(self.a, inner.a, self.c, inner.b)
        &&& exact_pair(self.b, inner.a, self.d, inner.b)
        &&& exact_pair(self.a, inner.c, self.c, inner.d)
        &&& exact_pair(self.b, inner.c, self.d, inner.d)
        &&& exact_affine(self.a, inner.e, self.c, inner.f, self.e)
        &&& exact_affine(self.b, inner.e, self.d, inner.f, self.f)
    }
}

/// Two products with a common factor.
proof fn lemma_regroup(p: int, a: int, q: int, b: int, x: int)
    ensures
        (p * a + q * b) * x == p * (a * x) + q * (b * x),
{
    mul::lemma_mul_is_distributive_add_other_way(x, p * a, q * b);
    mul::lemma_mul_is_associative(p, a, x);
    mul::lemma_mul_is_associative(q, b, x);
}

/// A product with a sum of three terms.
proof fn lemma_spread(p: int, a: int, b: int, c: int)
    ensures
        p * (a + b + c) == p * a + p * b + p * c,
{
    mul::lemma_mul_is_distributive_add(p, a + b, c);
    mul::lemma_mul_is_distributive_add(p, a, b);
}

/// One coordinate of a composition, scaled by 2^149 squared, both ways.
proof fn lemma_composed_coordinate(
    scale: int,
    x: int,
    y: int,
    // The row of the outer matrix.
    p: int,
    q: int,
    r: int,
    // The inner matrix.
    a: int,
    b: int,
    c: int,
    d: int,
    e: int,
    f: int,
    // The image under the inner matrix, and the row of the composition.
    u: int,
    v: int,
    pa: int,
    pc: int,
    pe: int,
    // The image under the composition, and that of the image.
    once: int,
    twice: int,
)
    requires
        scale > 0,
        u * scale == a * x + c * y + e * scale,
        v * scale == b * x + d * y + f * scale,
        pa * scale == p * a + q * b,
        pc * scale == p * c + q * d,
        pe * scale == p * e + q * f + r * scale,
        once * scale == pa * x + pc * y + pe * scale,
        twice * scale == p * u + q * v + r * scale,
    ensures
        once == twice,
{
    assert(once * scale * scale == (p * a + q * b) * x + (p * c + q * d) * y + (p * e + q * f) * scale
        + r * scale * scale) by (nonlinear_arith)
        requires
            pa * scale == p * a + q * b,
            pc * scale == p * c + q * d,
            pe * scale == p * e + q * f + r * scale,
            once * scale == pa * x + pc * y + pe * scale,
    {
        assert(once * scale * scale == (pa * x + pc * y + pe * scale) * scale);
        assert((pa * x) * scale == (pa * scale) * x);
        assert((pc * y) * scale == (pc * scale) * y);
        assert((pe * scale) * scale == (p * e + q * f + r * scale) * scale);
    }
    assert(twice * scale * scale == p * (a * x + c * y + e * scale) + q * (b * x + d * y + f
        * scale) + r * scale * scale) by (nonlinear_arith)
        requires
            u * scale == a * x + c * y + e * scale,
            v * scale == b * x + d * y + f * scale,
            twice * scale == p * u + q * v + r * scale,
    {
        assert(twice * scale * scale == (p * u + q * v + r * scale) * scale);
        assert((p * u) * scale == p * (u * scale));
        assert((q * v) * scale == q * (v * scale));
    }
    lemma_regroup(p, a, q, b, x);
    lemma_regroup(p, c, q, d, y);
    lemma_regroup(p, e, q, f, scale);
    lemma_spread(p, a * x, c * y, e * scale);
    lemma_spread(q, b * x, d * y, f * scale);
    assert(once == twice) by (nonlinear_arith)
        requires
            once * scale * scale == twice * scale * scale,
            scale > 0,
    ;
}

/// The exact value of `p x + q y`.
proof fn lemma_exact_pair(p: Single, x: Single, q: Single, y: Single)
    requires
        exact_pair(p, x, q, y),
    ensures
        p.product(x).sum(q.product(y)).units() * power2::pow2(149) == p.units() * x.units()
            + q.units() * y.units(),
{
    mul::lemma_mul_is_distributive_add_other_way(
        power2::pow2(149) as int,
        p.product(x).units(),
        q.product(y).units(),
    );
}

/// The exact value of `p x + q y + r`.
proof fn lemma_exact_affine(p: Single, x: Single, q: Single, y: Single, r: Single)
    requires
        exact_affine(p, x, q, y, r),
    ensures
        p.product(x).sum(q.product(y)).sum(r).units() * power2::pow2(149) == p.units() * x.units()
            + q.units() * y.units() + r.units() * power2::pow2(149),
{
    lemma_exact_pair(p, x, q, y);
    mul::lemma_mul_is_distributive_add_other_way(
        power2::pow2(149) as int,
        p.product(x).sum(q.product(y)).units(),
        r.units(),
    );
}

/// The image of a point under a composition is the image, under the outer
/// matrix, of its image under the inner one, wherever nothing is rounded.
pub proof fn lemma_composition_applies_in_turn(outer: Matrix, inner: Matrix, x: Single, y: Single)
    requires
        outer.after_is_exact(inner),
        inner.image_is_exact(x, y),
        outer.image_is_exact(inner.image(x, y).0, inner.image(x, y).1),
        outer.after(inner).image_is_exact(x, y),
    ensures
        ({
            let (u, v) = inner.image(x, y);
            let once = outer.after(inner).image(x, y);
            let twice = outer.image(u, v);
            once.0.same_value(twice.0) && once.1.same_value(twice.1)
        }),
{
    let scale = power2::pow2(149) as int;
    let both = outer.after(inner);
    let (u, v) = inner.image(x, y);
    power2::lemma_pow2_pos(149);
    lemma_exact_affine(inner.a, x, inner.c, y, inner.e);
    lemma_exact_affine(inner.b, x, inner.d, y, inner.f);
    lemma_exact_pair(outer.a, inner.a, outer.c, inner.b);
    lemma_exact_pair(outer.b, inner.a, outer.d, inner.b);
    lemma_exact_pair(outer.a, inner.c, outer.c, inner.d);
    lemma_exact_pair(outer.b, inner.c, outer.d, inner.d);
    lemma_exact_affine(outer.a, inner.e, outer.c, inner.f, outer.e);
    lemma_exact_affine(outer.b, inner.e, outer.d, inner.f, outer.f);
    lemma_exact_affine(outer.a, u, outer.c, v, outer.e);
    lemma_exact_affine(outer.b, u, outer.d, v, outer.f);
    lemma_exact_affine(both.a, x, both.c, y, both.e);
    lemma_exact_affine(both.b, x, both.d, y, both.f);
    lemma_composed_coordinate(
        scale,
        x.units(),
        y.units(),
        outer.a.units(),
        outer.c.units(),
        outer.e.units(),
        inner.a.units(),
        inner.b.units(),
        inner.c.units(),
        inner.d.units(),
        inner.e.units(),
        inner.f.units(),
        u.units(),
        v.units(),
        both.a.units(),
        both.c.units(),
        both.e.units(),
        both.image(x, y).0.units(),
        outer.image(u, v).0.units(),
    );
    lemma_composed_coordinate(
        scale,
        x.units(),
        y.units(),
        outer.b.units(),
        outer.d.units(),
        outer.f.units(),
        inner.a.units(),
        inner.b.units(),
        inner.c.units(),
        inner.d.units(),
        inner.e.units(),
        inner.f.units(),
        u.units(),
        v.units(),
        both.b.units(),
        both.d.units(),
        both.f.units(),
        both.image(x, y).1.units(),
        outer.image(u, v).1.units(),
    );
}

/// `x + 0 y`, for either zero, has the value of `x`.
proof fn lemma_one_and_zero(x: Single, y: Single)
    requires
        x.is_finite(),
        y.is_finite(),
    ensures
        ({
            let one = Single::of_bits(ONE);
            let zero = Single::of_bits(0);
            &&& one.product(x).sum(zero.product(y)).same_value(x)
            &&& zero.product(y).sum(one.product(x)).same_value(x)
            &&& x.product(one).sum(y.product(zero)).same_value(x)
            &&& y.product(zero).sum(x.product(one)).same_value(x)
        }),
{
    let zero = Single::of_bits(0);
    single::lemma_one_times(x);
    single::lemma_zero_times(zero, y);
    single::lemma_plus_zero(x, zero.product(y));
    single::lemma_plus_zero(x, y.product(zero));
}

/// `x 0 + y 0 + z` has the value of `z`.
proof fn lemma_zeros_and_offset(x: Single, y: Single, z: Single)
    requires
        x.is_finite(),
        y.is_finite(),
        z.is_finite(),
    ensures
        x.product(Single::of_bits(0)).sum(y.product(Single::of_bits(0))).sum(z).same_value(z),
{
    let zero = Single::of_bits(0);
    single::lemma_zero_times(zero, x);
    single::lemma_zero_times(zero, y);
    single::lemma_zero_sum(x.product(zero), y.product(zero));
    single::lemma_plus_zero(z, x.product(zero).sum(y.product(zero)));
}

/// The identity matrix keeps the value of every point.
pub proof fn lemma_identity_keeps_points(x: Single, y: Single)
    requires
        x.is_finite(),
        y.is_finite(),
    ensures
        Matrix::unit().image(x, y).0.same_value(x),
        Matrix::unit().image(x, y).1.same_value(y),
{
    let one = Single::of_bits(ONE);
    let zero = Single::of_bits(0);
    lemma_one_and_zero(x, y);
    lemma_one_and_zero(y, x);
    single::lemma_plus_zero(one.product(x).sum(zero.product(y)), zero);
    single::lemma_plus_zero(zero.product(x).sum(one.product(y)), zero);
}

/// Composition with the identity, on either side, keeps the values of every
/// finite matrix.
pub proof fn lemma_identity_is_neutral(matrix: Matrix)
    requires
        matrix.is_finite(),
    ensures
        Matrix::unit().after(matrix).same_values(matrix),
        matrix.after(Matrix::unit()).same_values(matrix),
{
    let one = Single::of_bits(ONE);
    let zero = Single::of_bits(0);
    lemma_one_and_zero(matrix.a, matrix.b);
    lemma_one_and_zero(matrix.b, matrix.a);
    lemma_one_and_zero(matrix.c, matrix.d);
    lemma_one_and_zero(matrix.d, matrix.c);
    lemma_one_and_zero(matrix.a, matrix.c);
    lemma_one_and_zero(matrix.c, matrix.a);
    lemma_one_and_zero(matrix.b, matrix.d);
    lemma_one_and_zero(matrix.d, matrix.b);
    lemma_one_and_zero(matrix.e, matrix.f);
    lemma_one_and_zero(matrix.f, matrix.e);
    single::lemma_plus_zero(one.product(matrix.e).sum(zero.product(matrix.f)), zero);
    single::lemma_plus_zero(zero.product(matrix.e).sum(one.product(matrix.f)), zero);
    lemma_zeros_and_offset(matrix.a, matrix.c, matrix.e);
    lemma_zeros_and_offset(matrix.b, matrix.d, matrix.f);
}

/// Whether a coordinate is below the one or above the other end of a range.
pub open spec fn outside(x: Single, low: Single, high: Single) -> bool {
    x.lt(low) || high.lt(x)
}

/// A rectangle spanned by two corners is never inside out, and neither corner
/// lies outside of it.
pub proof fn lemma_span_holds_its_corners(first: (Single, Single), second: (Single, Single))
    ensures
        ({
            let rect = RectF::spanned(first, second);
            &&& !rect.right.lt(rect.left)
            &&& !rect.bottom.lt(rect.top)
            &&& !outside(first.0, rect.left, rect.right)
            &&& !outside(first.1, rect.top, rect.bottom)
            &&& !outside(second.0, rect.left, rect.right)
            &&& !outside(second.1, rect.top, rect.bottom)
        }),
{
    single::lemma_lesser_and_greater(first.0, second.0);
    single::lemma_lesser_and_greater(first.1, second.1);
}

/// None of four numbers lies outside of the range that they span.
proof fn lemma_range_of_four(a: Single, b: Single, c: Single, d: Single)
    ensures
        ({
            let low = Single::least_of(a, b, c, d);
            let high = Single::greatest_of(a, b, c, d);
            &&& !outside(a, low, high)
            &&& !outside(b, low, high)
            &&& !outside(c, low, high)
            &&& !outside(d, low, high)
        }),
{
    let up = Single::of_bits(INFINITE);
    let down = Single::of_bits((INFINITE + SIGN) as u32);
    let low_a = up.lesser(a);
    let low_b = low_a.lesser(b);
    let low_c = low_b.lesser(c);
    let high_a = down.greater(a);
    let high_b = high_a.greater(b);
    let high_c = high_b.greater(c);
    single::lemma_lesser_and_greater(up, a);
    single::lemma_lesser_and_greater(low_a, b);
    single::lemma_lesser_and_greater(low_b, c);
    single::lemma_lesser_and_greater(low_c, d);
    single::lemma_lesser_and_greater(down, a);
    single::lemma_lesser_and_greater(high_a, b);
    single::lemma_lesser_and_greater(high_b, c);
    single::lemma_lesser_and_greater(high_c, d);
    single::lemma_lesser_goes_down(up, up, a);
    single::lemma_lesser_goes_down(a, low_a, b);
    single::lemma_lesser_goes_down(a, low_b, c);
    single::lemma_lesser_goes_down(b, low_b, c);
    single::lemma_lesser_goes_down(a, low_c, d);
    single::lemma_lesser_goes_down(b, low_c, d);
    single::lemma_lesser_goes_down(c, low_c, d);
    single::lemma_greater_goes_up(down, down, a);
    single::lemma_greater_goes_up(a, high_a, b);
    single::lemma_greater_goes_up(a, high_b, c);
    single::lemma_greater_goes_up(b, high_b, c);
    single::lemma_greater_goes_up(a, high_c, d);
    single::lemma_greater_goes_up(b, high_c, d);
    single::lemma_greater_goes_up(c, high_c, d);
}

/// The image of no corner of a box lies outside of the box around them.
pub proof fn lemma_image_box_holds_corners(matrix: Matrix, area: RectF)
    ensures
        ({
            let lifted = matrix.image_box(area);
            let inside = |point: (Single, Single)|
                !outside(point.0, lifted.left, lifted.right) && !outside(
                    point.1,
                    lifted.bottom,
                    lifted.top,
                );
            &&& inside(matrix.image(area.left, area.bottom))
            &&& inside(matrix.image(area.left, area.top))
            &&& inside(matrix.image(area.right, area.bottom))
            &&& inside(matrix.image(area.right, area.top))
        }),
{
    let (x1, y1) = matrix.image(area.left, area.bottom);
    let (x2, y2) = matrix.image(area.left, area.top);
    let (x3, y3) = matrix.image(area.right, area.bottom);
    let (x4, y4) = matrix.image(area.right, area.top);
    lemma_range_of_four(x1, x2, x3, x4);
    lemma_range_of_four(y1, y2, y3, y4);
}

/// Every point of the device has finite viewport coordinates.
pub proof fn lemma_viewport_is_finite(point: DevicePoint)
    ensures
        point.in_viewport().0.pattern() <= 0x4f80_0000,
        point.in_viewport().1.pattern() <= 0x4f80_0000,
{
    let scale = Single::of_bits(THOUSAND);
    single::lemma_of_int_is_finite(point.x as int);
    single::lemma_of_int_is_finite(point.y as int);
    single::lemma_quotient_is_bounded(Single::of_int(point.x as int), scale);
    single::lemma_quotient_is_bounded(Single::of_int(point.y as int), scale);
}

/// The viewport keeps the order of the points of the device.
pub proof fn lemma_viewport_keeps_order(first: DevicePoint, second: DevicePoint)
    ensures
        first.x <= second.x ==> !second.in_viewport().0.lt(first.in_viewport().0),
        first.y <= second.y ==> !second.in_viewport().1.lt(first.in_viewport().1),
{
    let scale = Single::of_bits(THOUSAND);
    reveal(Single::lt);
    single::lemma_of_int_is_finite(first.x as int);
    single::lemma_of_int_is_finite(first.y as int);
    single::lemma_of_int_is_finite(second.x as int);
    single::lemma_of_int_is_finite(second.y as int);
    if first.x <= second.x {
        single::lemma_of_int_is_monotone(first.x as int, second.x as int);
        single::lemma_quotient_is_monotone(
            Single::of_int(first.x as int),
            Single::of_int(second.x as int),
            scale,
        );
    }
    if first.y <= second.y {
        single::lemma_of_int_is_monotone(first.y as int, second.y as int);
        single::lemma_quotient_is_monotone(
            Single::of_int(first.y as int),
            Single::of_int(second.y as int),
            scale,
        );
    }
}

/// The coefficients of a probed transform are finite.
proof fn lemma_probed_is_finite(origin: DevicePoint, unit_x: DevicePoint, unit_y: DevicePoint)
    ensures
        ({
            let transform = ViewportTransform::probed(origin, unit_x, unit_y);
            &&& transform.a.is_finite() && transform.b.is_finite() && transform.c.is_finite()
            &&& transform.d.is_finite() && transform.e.is_finite() && transform.f.is_finite()
        }),
{
    let (e, f) = origin.in_viewport();
    lemma_viewport_is_finite(origin);
    lemma_viewport_is_finite(unit_x);
    lemma_viewport_is_finite(unit_y);
    single::lemma_sum_is_finite(unit_x.in_viewport().0, e.negation());
    single::lemma_sum_is_finite(unit_y.in_viewport().0, e.negation());
    single::lemma_sum_is_finite(unit_x.in_viewport().1, f.negation());
    single::lemma_sum_is_finite(unit_y.in_viewport().1, f.negation());
}

/// A probed transform takes the page's origin to where it was found to lie.
pub proof fn lemma_transform_at_origin(
    origin: DevicePoint,
    unit_x: DevicePoint,
    unit_y: DevicePoint,
)
    ensures
        ({
            let zero = Single::of_bits(0);
            let point = ViewportTransform::probed(origin, unit_x, unit_y).image(zero, zero);
            &&& point.0.same_value(origin.in_viewport().0)
            &&& point.1.same_value(origin.in_viewport().1)
        }),
{
    let transform = ViewportTransform::probed(origin, unit_x, unit_y);
    lemma_probed_is_finite(origin, unit_x, unit_y);
    lemma_zeros_and_offset(transform.a, transform.b, transform.e);
    lemma_zeros_and_offset(transform.c, transform.d, transform.f);
}

/// One coordinate of the image of a unit point.
proof fn lemma_unit_coordinate(slope: Single, other: Single, offset: Single)
    requires
        slope.is_finite(),
        other.is_finite(),
        offset.is_finite(),
    ensures
        ({
            let one = Single::of_bits(ONE);
            let zero = Single::of_bits(0);
            let sum = slope.sum(offset);
            let first = slope.product(one).sum(other.product(zero)).sum(offset);
            let second = other.product(zero).sum(slope.product(one)).sum(offset);
            &&& first.units() == sum.units() && first.is_finite() == sum.is_finite()
            &&& second.units() == sum.units() && second.is_finite() == sum.is_finite()
        }),
{
    let one = Single::of_bits(ONE);
    let zero = Single::of_bits(0);
    lemma_one_and_zero(slope, other);
    single::lemma_sum_respects_value(
        slope.product(one).sum(other.product(zero)),
        slope,
        offset,
    );
    single::lemma_sum_respects_value(
        other.product(zero).sum(slope.product(one)),
        slope,
        offset,
    );
}

/// A probed transform takes a unit point to where it was found to lie exactly
/// where subtracting the origin and adding it again gives that place back.
pub proof fn lemma_transform_at_unit_points(
    origin: DevicePoint,
    unit_x: DevicePoint,
    unit_y: DevicePoint,
)
    ensures
        ({
            let one = Single::of_bits(ONE);
            let zero = Single::of_bits(0);
            let transform = ViewportTransform::probed(origin, unit_x, unit_y);
            let (e, f) = origin.in_viewport();
            let (x, y) = unit_x.in_viewport();
            let (u, v) = unit_y.in_viewport();
            let at_x = transform.image(one, zero);
            let at_y = transform.image(zero, one);
            &&& at_x.0.same_value(x) <==> x.difference(e).sum(e).same_value(x)
            &&& at_x.1.same_value(y) <==> y.difference(f).sum(f).same_value(y)
            &&& at_y.0.same_value(u) <==> u.difference(e).sum(e).same_value(u)
            &&& at_y.1.same_value(v) <==> v.difference(f).sum(f).same_value(v)
        }),
{
    let transform = ViewportTransform::probed(origin, unit_x, unit_y);
    lemma_probed_is_finite(origin, unit_x, unit_y);
    lemma_unit_coordinate(transform.a, transform.b, transform.e);
    lemma_unit_coordinate(transform.c, transform.d, transform.f);
    lemma_unit_coordinate(transform.b, transform.a, transform.e);
    lemma_unit_coordinate(transform.d, transform.c, transform.f);
}

impl RectF {
    /// Whether every edge is a finite number.
    pub open spec fn is_finite(self) -> bool {
        &&& self.left.is_finite() && self.top.is_finite()
        &&& self.right.is_finite() && self.bottom.is_finite()
    }

    /// Whether no edge is beyond the opposite one, in a space whose y axis
    /// points up.
    pub open spec fn is_ordered(self) -> bool {
        !self.right.lt(self.left) && !self.top.lt(self.bottom)
    }

    /// Whether the edges of two rectangles are the same numbers.
    pub open spec fn same_numbers(self, other: RectF) -> bool {
        &&& self.left.same_number(other.left) && self.top.same_number(other.top)
        &&& self.right.same_number(other.right) && self.bottom.same_number(other.bottom)
    }
}

impl Matrix {
    /// Whether the entries of two matrices are the same numbers.
    pub open spec fn same_numbers(self, other: Matrix) -> bool {
        &&& self.a.same_number(other.a) && self.b.same_number(other.b)
        &&& self.c.same_number(other.c) && self.d.same_number(other.d)
        &&& self.e.same_number(other.e) && self.f.same_number(other.f)
    }
}

/// `p x + q y` depends on the numbers only.
proof fn lemma_pair_same(p: Single, p2: Single, x: Single, q: Single, q2: Single, y: Single)
    requires
        p.same_number(p2),
        q.same_number(q2),
    ensures
        p.product(x).sum(q.product(y)).same_number(p2.product(x).sum(q2.product(y))),
{
    single::lemma_product_same(p, p2, x);
    single::lemma_product_same(q, q2, y);
    single::lemma_sum_same(p.product(x), p2.product(x), q.product(y), q2.product(y));
}

/// Matrices of the same numbers take a point to the same numbers.
pub proof fn lemma_image_same(first: Matrix, second: Matrix, x: Single, y: Single)
    requires
        first.same_numbers(second),
    ensures
        first.image(x, y).0.same_number(second.image(x, y).0),
        first.image(x, y).1.same_number(second.image(x, y).1),
{
    lemma_pair_same(first.a, second.a, x, first.c, second.c, y);
    lemma_pair_same(first.b, second.b, x, first.d, second.d, y);
    single::lemma_sum_same(
        first.a.product(x).sum(first.c.product(y)),
        second.a.product(x).sum(second.c.product(y)),
        first.e,
        second.e,
    );
    single::lemma_sum_same(
        first.b.product(x).sum(first.d.product(y)),
        second.b.product(x).sum(second.d.product(y)),
        first.f,
        second.f,
    );
}

/// Matrices of the same numbers compose with a matrix to the same numbers.
pub proof fn lemma_after_same(first: Matrix, second: Matrix, inner: Matrix)
    requires
        first.same_numbers(second),
    ensures
        first.after(inner).same_numbers(second.after(inner)),
{
    lemma_pair_same(first.a, second.a, inner.a, first.c, second.c, inner.b);
    lemma_pair_same(first.b, second.b, inner.a, first.d, second.d, inner.b);
    lemma_pair_same(first.a, second.a, inner.c, first.c, second.c, inner.d);
    lemma_pair_same(first.b, second.b, inner.c, first.d, second.d, inner.d);
    lemma_image_same(first, second, inner.e, inner.f);
}

/// The least and the greatest of the same four numbers are the same.
proof fn lemma_four_same(first: (Single, Single, Single, Single), second: (
    Single,
    Single,
    Single,
    Single,
))
    requires
        first.0.same_number(second.0),
        first.1.same_number(second.1),
        first.2.same_number(second.2),
        first.3.same_number(second.3),
    ensures
        Single::least_of(first.0, first.1, first.2, first.3).same_number(
            Single::least_of(second.0, second.1, second.2, second.3),
        ),
        Single::greatest_of(first.0, first.1, first.2, first.3).same_number(
            Single::greatest_of(second.0, second.1, second.2, second.3),
        ),
{
    let up = Single::of_bits(INFINITE);
    let down = Single::of_bits((INFINITE + SIGN) as u32);
    let low = up.lesser(first.0);
    let low2 = up.lesser(second.0);
    let high = down.greater(first.0);
    let high2 = down.greater(second.0);
    single::lemma_extremes_same(up, up, first.0, second.0);
    single::lemma_extremes_same(down, down, first.0, second.0);
    single::lemma_extremes_same(low, low2, first.1, second.1);
    single::lemma_extremes_same(high, high2, first.1, second.1);
    single::lemma_extremes_same(
        low.lesser(first.1),
        low2.lesser(second.1),
        first.2,
        second.2,
    );
    single::lemma_extremes_same(
        high.greater(first.1),
        high2.greater(second.1),
        first.2,
        second.2,
    );
    single::lemma_extremes_same(
        low.lesser(first.1).lesser(first.2),
        low2.lesser(second.1).lesser(second.2),
        first.3,
        second.3,
    );
    single::lemma_extremes_same(
        high.greater(first.1).greater(first.2),
        high2.greater(second.1).greater(second.2),
        first.3,
        second.3,
    );
}

/// Matrices of the same numbers lift a box to the same numbers.
pub proof fn lemma_image_box_same(first: Matrix, second: Matrix, area: RectF)
    requires
        first.same_numbers(second),
    ensures
        first.image_box(area).same_numbers(second.image_box(area)),
{
    lemma_image_same(first, second, area.left, area.bottom);
    lemma_image_same(first, second, area.left, area.top);
    lemma_image_same(first, second, area.right, area.bottom);
    lemma_image_same(first, second, area.right, area.top);
    let (x1, y1) = first.image(area.left, area.bottom);
    let (x2, y2) = first.image(area.left, area.top);
    let (x3, y3) = first.image(area.right, area.bottom);
    let (x4, y4) = first.image(area.right, area.top);
    let (u1, v1) = second.image(area.left, area.bottom);
    let (u2, v2) = second.image(area.left, area.top);
    let (u3, v3) = second.image(area.right, area.bottom);
    let (u4, v4) = second.image(area.right, area.top);
    lemma_four_same((x1, x2, x3, x4), (u1, u2, u3, u4));
    lemma_four_same((y1, y2, y3, y4), (v1, v2, v3, v4));
}

/// The ends of a range, each given twice, are its least and its greatest.
proof fn lemma_range_of_ends(low: Single, high: Single)
    requires
        low.is_finite(),
        high.is_finite(),
        low.units() <= high.units(),
    ensures
        Single::least_of(low, low, high, high).same_number(low),
        Single::least_of(low, high, low, high).same_number(low),
        Single::greatest_of(low, low, high, high).same_number(high),
        Single::greatest_of(low, high, low, high).same_number(high),
{
    reveal(Single::lt);
    rounding::lemma_magnitude_sign(low.pattern());
    rounding::lemma_magnitude_sign(high.pattern());
    rounding::lemma_magnitude_increases(low.pattern(), INFINITE as int);
    rounding::lemma_magnitude_increases(high.pattern(), INFINITE as int);
    if low.units() == high.units() {
        single::lemma_equal_units(low, high);
        single::lemma_equal_units(high, low);
    }
}

/// The identity keeps the numbers of a finite box that is not inside out.
pub proof fn lemma_identity_keeps_boxes(area: RectF)
    requires
        area.is_finite(),
        area.is_ordered(),
    ensures
        Matrix::unit().image_box(area).same_numbers(area),
{
    let unit = Matrix::unit();
    reveal(Single::lt);
    lemma_identity_keeps_points(area.left, area.bottom);
    lemma_identity_keeps_points(area.left, area.top);
    lemma_identity_keeps_points(area.right, area.bottom);
    lemma_identity_keeps_points(area.right, area.top);
    lemma_range_of_ends(area.left, area.right);
    lemma_range_of_ends(area.bottom, area.top);
    let (x1, y1) = unit.image(area.left, area.bottom);
    let (x2, y2) = unit.image(area.left, area.top);
    let (x3, y3) = unit.image(area.right, area.bottom);
    let (x4, y4) = unit.image(area.right, area.top);
    let (l, r, b, t) = (area.left, area.right, area.bottom, area.top);
    lemma_four_same((x1, x2, x3, x4), (l, l, r, r));
    lemma_four_same((y1, y2, y3, y4), (b, t, b, t));
}

impl ViewportTransform {
    /// The transform to the viewport of a view box on a page that is turned by
    /// a number of quarters: it brings a corner of the box to the origin.
    pub open spec fn to_view_box(view_box: RectF, rotation: i32) -> ViewportTransform {
        let one = Single::of_bits(ONE);
        let minus_one = one.negation();
        let zero = Single::of_bits(0);
        if rotation == 1 {
            ViewportTransform {
                a: zero,
                b: one,
                c: one,
                d: zero,
                e: view_box.bottom.negation(),
                f: view_box.left.negation(),
            }
        } else if rotation == 2 {
            ViewportTransform {
                a: minus_one,
                b: zero,
                c: zero,
                d: one,
                e: view_box.right,
                f: view_box.bottom.negation(),
            }
        } else if rotation == 3 {
            ViewportTransform {
                a: zero,
                b: minus_one,
                c: minus_one,
                d: zero,
                e: view_box.top,
                f: view_box.right,
            }
        } else {
            ViewportTransform {
                a: one,
                b: zero,
                c: zero,
                d: minus_one,
                e: view_box.left.negation(),
                f: view_box.top,
            }
        }
    }
}

/// A coordinate that is only shifted, or turned around and shifted.
pub proof fn lemma_shifted(x: Single, y: Single, from: Single)
    requires
        x.is_finite(),
        y.is_finite(),
        from.is_finite(),
    ensures
        ({
            let one = Single::of_bits(ONE);
            let zero = Single::of_bits(0);
            let minus_one = one.negation();
            let start = from.negation();
            &&& one.product(x).sum(zero.product(y)).sum(start).same_number(x.difference(from))
            &&& zero.product(y).sum(one.product(x)).sum(start).same_number(x.difference(from))
            &&& minus_one.product(x).sum(zero.product(y)).sum(from).same_number(from.difference(x))
            &&& zero.product(y).sum(minus_one.product(x)).sum(from).same_number(from.difference(x))
        }),
{
    let one = Single::of_bits(ONE);
    let zero = Single::of_bits(0);
    let minus_one = one.negation();
    let start = from.negation();
    lemma_one_and_zero(x, y);
    single::lemma_sum_same(one.product(x).sum(zero.product(y)), x, start, start);
    single::lemma_sum_same(zero.product(y).sum(one.product(x)), x, start, start);
    single::lemma_minus_one_times(x);
    single::lemma_zero_times(zero, y);
    single::lemma_plus_zero(x.negation(), zero.product(y));
    single::lemma_sum_commutes(from, x.negation());
    single::lemma_sum_same(
        minus_one.product(x).sum(zero.product(y)),
        x.negation(),
        from,
        from,
    );
    single::lemma_sum_same(
        zero.product(y).sum(minus_one.product(x)),
        x.negation(),
        from,
        from,
    );
}

/// Of two shifted ends of a range, the lesser is that of the one end, and
/// turned around that of the other.
pub proof fn lemma_shifted_ends(low: Single, high: Single, from: Single)
    requires
        low.is_finite(),
        high.is_finite(),
        from.is_finite(),
        low.units() <= high.units(),
    ensures
        low.difference(from).lesser(high.difference(from)).same_number(low.difference(from)),
        from.difference(low).lesser(from.difference(high)).same_number(from.difference(high)),
{
    single::lemma_sum_keeps_order(low, high, from.negation());
    single::lemma_extremes_of_ordered(low.difference(from), high.difference(from));
    single::lemma_sum_keeps_order(high.negation(), low.negation(), from);
    single::lemma_sum_commutes(from, low.negation());
    single::lemma_sum_commutes(from, high.negation());
    single::lemma_extremes_of_ordered(from.difference(high), from.difference(low));
}

/// A spanned rectangle reaches from corner to corner: its sides are the ends
/// of the ranges of the corners' coordinates.
pub proof fn lemma_span_reaches_its_corners(first: (Single, Single), second: (Single, Single))
    ensures
        ({
            let rect = RectF::spanned(first, second);
            &&& single::are_ends(rect.left, rect.right, seq![first.0, second.0])
            &&& single::are_ends(rect.top, rect.bottom, seq![first.1, second.1])
        }),
{
    single::lemma_ends_of_two(first.0, second.0);
    single::lemma_ends_of_two(first.1, second.1);
}

/// A lifted box reaches from image to image: its sides are the ends of the
/// ranges of the coordinates of the four corners' images.
pub proof fn lemma_image_box_reaches_its_corners(matrix: Matrix, area: RectF)
    ensures
        ({
            let lifted = matrix.image_box(area);
            let (x1, y1) = matrix.image(area.left, area.bottom);
            let (x2, y2) = matrix.image(area.left, area.top);
            let (x3, y3) = matrix.image(area.right, area.bottom);
            let (x4, y4) = matrix.image(area.right, area.top);
            &&& single::are_ends(lifted.left, lifted.right, seq![x1, x2, x3, x4])
            &&& single::are_ends(lifted.bottom, lifted.top, seq![y1, y2, y3, y4])
        }),
{
    let (x1, y1) = matrix.image(area.left, area.bottom);
    let (x2, y2) = matrix.image(area.left, area.top);
    let (x3, y3) = matrix.image(area.right, area.bottom);
    let (x4, y4) = matrix.image(area.right, area.top);
    single::lemma_ends_of_four(x1, x2, x3, x4);
    single::lemma_ends_of_four(y1, y2, y3, y4);
}

/// A rectangle is carried to the viewport by its lower left and its upper
/// right corner: its sides there are the ends of the ranges of the coordinates
/// of their two images.
pub proof fn lemma_transformed_rect_reaches_its_corners(
    transform: ViewportTransform,
    page_bounds: RectF,
)
    ensures
        ({
            let rect = transform.image_rect(page_bounds);
            let (x1, y1) = transform.image(page_bounds.left, page_bounds.bottom);
            let (x2, y2) = transform.image(page_bounds.right, page_bounds.top);
            &&& single::are_ends(rect.left, rect.right, seq![x1, x2])
            &&& single::are_ends(rect.top, rect.bottom, seq![y1, y2])
        }),
{
    lemma_span_reaches_its_corners(
        transform.image(page_bounds.left, page_bounds.bottom),
        transform.image(page_bounds.right, page_bounds.top),
    );
}

/// A quarter turn makes the height of a finite rectangle its width and its
/// width its height: what was bottom and top become left and right, and what
/// was left and right become top and bottom.
pub proof fn lemma_quarter_turn_swaps_sides(transform: ViewportTransform, page_bounds: RectF)
    requires
        page_bounds.is_finite(),
        page_bounds.is_ordered(),
        transform.a.bits == 0,
        transform.b.bits == ONE,
        transform.c.bits == ONE,
        transform.d.bits == 0,
        transform.e.bits == 0,
        transform.f.bits == 0,
    ensures
        transform.image_rect(page_bounds).left.same_value(page_bounds.bottom),
        transform.image_rect(page_bounds).right.same_value(page_bounds.top),
        transform.image_rect(page_bounds).top.same_value(page_bounds.left),
        transform.image_rect(page_bounds).bottom.same_value(page_bounds.right),
{
    let one = Single::of_bits(ONE);
    let zero = Single::of_bits(0);
    assert(transform.a == zero && transform.b == one && transform.c == one && transform.d == zero);
    assert(transform.e == zero && transform.f == zero);
    reveal(Single::lt);
    lemma_one_and_zero(page_bounds.left, page_bounds.bottom);
    lemma_one_and_zero(page_bounds.bottom, page_bounds.left);
    lemma_one_and_zero(page_bounds.right, page_bounds.top);
    lemma_one_and_zero(page_bounds.top, page_bounds.right);
    let (x1, y1) = transform.image(page_bounds.left, page_bounds.bottom);
    let (x2, y2) = transform.image(page_bounds.right, page_bounds.top);
    single::lemma_plus_zero(zero.product(page_bounds.left).sum(one.product(page_bounds.bottom)), zero);
    single::lemma_plus_zero(one.product(page_bounds.left).sum(zero.product(page_bounds.bottom)), zero);
    single::lemma_plus_zero(zero.product(page_bounds.right).sum(one.product(page_bounds.top)), zero);
    single::lemma_plus_zero(one.product(page_bounds.right).sum(zero.product(page_bounds.top)), zero);
    single::lemma_extremes_of_ordered(x1, x2);
    single::lemma_extremes_of_ordered(y1, y2);
}

/// Where nothing is rounded, a matrix takes `(x, y)` to
/// `(a x + c y + e, b x + d y + f)`.
pub proof fn lemma_image_value(matrix: Matrix, x: Single, y: Single)
    requires
        matrix.image_is_exact(x, y),
    ensures
        ({
            let scale = power2::pow2(149) as int;
            let (u, v) = matrix.image(x, y);
            &&& u.units() * scale == matrix.a.units() * x.units() + matrix.c.units() * y.units()
                + matrix.e.units() * scale
            &&& v.units() * scale == matrix.b.units() * x.units() + matrix.d.units() * y.units()
                + matrix.f.units() * scale
        }),
{
    lemma_exact_affine(matrix.a, x, matrix.c, y, matrix.e);
    lemma_exact_affine(matrix.b, x, matrix.d, y, matrix.f);
}

/// Where nothing is rounded, a viewport transform takes `(x, y)` to
/// `(a x + b y + e, c x + d y + f)`.
pub proof fn lemma_viewport_image_value(transform: ViewportTransform, x: Single, y: Single)
    requires
        exact_affine(transform.a, x, transform.b, y, transform.e),
        exact_affine(transform.c, x, transform.d, y, transform.f),
    ensures
        ({
            let scale = power2::pow2(149) as int;
            let (u, v) = transform.image(x, y);
            &&& u.units() * scale == transform.a.units() * x.units() + transform.b.units()
                * y.units() + transform.e.units() * scale
            &&& v.units() * scale == transform.c.units() * x.units() + transform.d.units()
                * y.units() + transform.f.units() * scale
        }),
{
    lemma_exact_affine(transform.a, x, transform.b, y, transform.e);
    lemma_exact_affine(transform.c, x, transform.d, y, transform.f);
}

impl Matrix {
    /// The matrix with only the column that `x` meets.
    pub open spec fn x_column(self) -> Matrix {
        let zero = Single::of_bits(0);
        Matrix { a: self.a, b: self.b, c: zero, d: zero, e: zero, f: zero }
    }

    /// The matrix with only the column that `y` meets.
    pub open spec fn y_column(self) -> Matrix {
        let zero = Single::of_bits(0);
        Matrix { a: zero, b: zero, c: self.c, d: self.d, e: zero, f: zero }
    }

    /// The matrix without its offset.
    pub open spec fn linear(self) -> Matrix {
        Matrix { e: Single::of_bits(0), f: Single::of_bits(0), ..self }
    }
}

/// A matrix acts on each coordinate by a column of its own, adds up what they
/// give, and adds its offset last.
pub proof fn lemma_image_adds_up(matrix: Matrix, x: Single, y: Single)
    ensures
        ({
            let zero = Single::of_bits(0);
            let from_x = matrix.x_column().image(x, zero);
            let from_y = matrix.y_column().image(zero, y);
            let image = matrix.image(x, y);
            &&& from_x.0.same_number(matrix.a.product(x))
            &&& from_x.1.same_number(matrix.b.product(x))
            &&& from_y.0.same_number(matrix.c.product(y))
            &&& from_y.1.same_number(matrix.d.product(y))
            &&& image.0.same_number(from_x.0.sum(from_y.0).sum(matrix.e))
            &&& image.1.same_number(from_x.1.sum(from_y.1).sum(matrix.f))
        }),
{
    lemma_coordinate_adds_up(matrix.a, x, matrix.c, y, matrix.e);
    lemma_coordinate_adds_up(matrix.b, x, matrix.d, y, matrix.f);
}

/// One coordinate of an image.
proof fn lemma_coordinate_adds_up(p: Single, x: Single, q: Single, y: Single, r: Single)
    ensures
        ({
            let zero = Single::of_bits(0);
            let from_x = p.product(x).sum(zero.product(zero)).sum(zero);
            let from_y = zero.product(zero).sum(q.product(y)).sum(zero);
            &&& from_x.same_number(p.product(x))
            &&& from_y.same_number(q.product(y))
            &&& p.product(x).sum(q.product(y)).sum(r).same_number(from_x.sum(from_y).sum(r))
        }),
{
    let zero = Single::of_bits(0);
    let none = zero.product(zero);
    let from_x = p.product(x).sum(none).sum(zero);
    let from_y = none.sum(q.product(y)).sum(zero);
    single::lemma_zero_times(zero, zero);
    single::lemma_result_plus_zero(p, x, none);
    single::lemma_result_plus_zero(q, y, none);
    single::lemma_result_plus_zero(p.product(x), none, zero);
    single::lemma_result_plus_zero(none, q.product(y), zero);
    single::lemma_sum_same(p.product(x), from_x, q.product(y), from_y);
    single::lemma_sum_same(p.product(x).sum(q.product(y)), from_x.sum(from_y), r, r);
}

/// The columns of a composition are the images of the columns of the inner
/// matrix: those that meet coordinates without the outer offset, and the
/// offset with it.
pub proof fn lemma_composition_columns(outer: Matrix, inner: Matrix)
    ensures
        ({
            let both = outer.after(inner);
            let across = outer.linear().image(inner.a, inner.b);
            let up = outer.linear().image(inner.c, inner.d);
            &&& both.a.same_number(across.0) && both.b.same_number(across.1)
            &&& both.c.same_number(up.0) && both.d.same_number(up.1)
            &&& (both.e, both.f) == outer.image(inner.e, inner.f)
        }),
{
    let zero = Single::of_bits(0);
    single::lemma_result_plus_zero(outer.a.product(inner.a), outer.c.product(inner.b), zero);
    single::lemma_result_plus_zero(outer.b.product(inner.a), outer.d.product(inner.b), zero);
    single::lemma_result_plus_zero(outer.a.product(inner.c), outer.c.product(inner.d), zero);
    single::lemma_result_plus_zero(outer.b.product(inner.c), outer.d.product(inner.d), zero);
}

/// A viewport transform takes the same numbers to the same numbers.
pub proof fn lemma_viewport_image_same(
    transform: ViewportTransform,
    first: (Single, Single),
    second: (Single, Single),
)
    requires
        first.0.same_number(second.0),
        first.1.same_number(second.1),
    ensures
        transform.image(first.0, first.1).0.same_number(transform.image(second.0, second.1).0),
        transform.image(first.0, first.1).1.same_number(transform.image(second.0, second.1).1),
{
    lemma_row_same(transform.a, transform.b, transform.e, first, second);
    lemma_row_same(transform.c, transform.d, transform.f, first, second);
}

/// One coordinate of an image of the same numbers.
proof fn lemma_row_same(
    p: Single,
    q: Single,
    r: Single,
    first: (Single, Single),
    second: (Single, Single),
)
    requires
        first.0.same_number(second.0),
        first.1.same_number(second.1),
    ensures
        p.product(first.0).sum(q.product(first.1)).sum(r).same_number(
            p.product(second.0).sum(q.product(second.1)).sum(r),
        ),
{
    single::lemma_product_commutes(p, first.0);
    single::lemma_product_commutes(p, second.0);
    single::lemma_product_commutes(q, first.1);
    single::lemma_product_commutes(q, second.1);
    lemma_pair_same(first.0, second.0, p, first.1, second.1, q);
    single::lemma_sum_same(
        p.product(first.0).sum(q.product(first.1)),
        p.product(second.0).sum(q.product(second.1)),
        r,
        r,
    );
}

/// Device coordinates of up to 2^24 thousandths lie in the viewport at the
/// number closest to a thousandth of them.
pub proof fn lemma_viewport_is_closest(point: DevicePoint)
    ensures
        ({
            let one = power2::pow2(149) as int;
            let (x, y) = point.in_viewport();
            &&& -0x100_0000 <= point.x <= 0x100_0000 ==> x.is_closest(point.x * one, 1000)
            &&& -0x100_0000 <= point.y <= 0x100_0000 ==> y.is_closest(point.y * one, 1000)
        }),
{
    if -0x100_0000 <= point.x <= 0x100_0000 {
        lemma_thousandth_is_closest(point.x as int);
    }
    if -0x100_0000 <= point.y <= 0x100_0000 {
        lemma_thousandth_is_closest(point.y as int);
    }
}

/// A thousandth of an integer.
proof fn lemma_thousandth_is_closest(n: int)
    requires
        -0x100_0000 <= n <= 0x100_0000,
    ensures
        Single::of_int(n).quotient(Single::of_bits(THOUSAND)).is_closest(
            n * power2::pow2(149),
            1000,
        ),
{
    let one = power2::pow2(149) as int;
    let scale = Single::of_bits(THOUSAND);
    power2::lemma_pow2_pos(149);
    single::lemma_of_int_is_exact(n);
    single::lemma_quotient_is_closest(Single::of_int(n), scale);
    assert(scale.units() == 1000 * one) by {
        assert(rounding::place(THOUSAND as int) == 135);
        power2::lemma_pow2_adds(14, 135);
        power2::lemma2_to64();
        mul::lemma_mul_is_associative(1000, 0x4000, power2::pow2(135) as int);
    }
    single::lemma_closest_reduced(
        Single::of_int(n).quotient(scale),
        n * one,
        1000,
        one,
    );
}

/// Whether nothing is rounded when two matrices are applied to a point in
/// turn, when they are composed, and when the composition is applied to it.
pub open spec fn applies_exactly(outer: Matrix, inner: Matrix, x: Single, y: Single) -> bool {
    &&& outer.after_is_exact(inner)
    &&& inner.image_is_exact(x, y)
    &&& outer.image_is_exact(inner.image(x, y).0, inner.image(x, y).1)
    &&& outer.after(inner).image_is_exact(x, y)
}

/// A device coordinate, as a number, lies in the viewport at the number
/// closest to a thousandth of it.
pub proof fn lemma_viewport_divides_by_a_thousand(point: DevicePoint)
    ensures
        point.in_viewport().0.is_closest(Single::of_int(point.x as int).units(), 1000),
        point.in_viewport().1.is_closest(Single::of_int(point.y as int).units(), 1000),
{
    lemma_divided_by_a_thousand(Single::of_int(point.x as int), point.x as int);
    lemma_divided_by_a_thousand(Single::of_int(point.y as int), point.y as int);
}

/// A number divided by a thousand.
proof fn lemma_divided_by_a_thousand(number: Single, n: int)
    requires
        number == Single::of_int(n),
        -0x1_0000_0000 <= n <= 0x1_0000_0000,
    ensures
        number.quotient(Single::of_bits(THOUSAND)).is_closest(number.units(), 1000),
{
    let one = power2::pow2(149) as int;
    let scale = Single::of_bits(THOUSAND);
    power2::lemma_pow2_pos(149);
    single::lemma_of_int_is_finite(n);
    single::lemma_quotient_is_closest(number, scale);
    assert(scale.units() == 1000 * one) by {
        assert(rounding::place(THOUSAND as int) == 135);
        power2::lemma_pow2_adds(14, 135);
        power2::lemma2_to64();
        mul::lemma_mul_is_associative(1000, 0x4000, power2::pow2(135) as int);
    }
    single::lemma_closest_reduced(number.quotient(scale), number.units(), 1000, one);
}

/// A viewport transform acts as the matrix whose rows it lists: its second and
/// third entries stand where those of a matrix stand the other way round.
pub proof fn lemma_viewport_transform_is_a_matrix(
    transform: ViewportTransform,
    matrix: Matrix,
    x: Single,
    y: Single,
)
    requires
        matrix.a == transform.a,
        matrix.b == transform.c,
        matrix.c == transform.b,
        matrix.d == transform.d,
        matrix.e == transform.e,
        matrix.f == transform.f,
    ensures
        transform.image(x, y) == matrix.image(x, y),
{
}

} // verus!
