//! Page objects as the PDF engine reports them, and image objects.

use crate::color::{Answer, Channels};
use crate::geometry;
use crate::geometry::{Matrix, RectF, ViewportTransform};
use crate::single;
use crate::single::Single;
use vstd::prelude::*;

verus! {

/// The engine's type code of a path object.
pub const PATH_OBJECT: i32 = 2;

/// The engine's type code of an image object.
pub const IMAGE_OBJECT: i32 = 3;

/// The engine's type code of a form object.
pub const FORM_OBJECT: i32 = 5;

/// The engine's code for a path that is not filled.
pub const FILL_NONE: i32 = 0;

/// How a path is painted: its fill mode, and whether it is stroked.
#[derive(Clone, Copy, Debug, PartialEq, Eq, Structural)]
pub struct DrawMode {
    pub fill_mode: i32,
    pub stroke: i32,
}

/// A point of a path in the object's own coordinates.
#[derive(Clone, Copy, Debug, PartialEq, Eq, Structural)]
pub struct Point {
    pub x: Single,
    pub y: Single,
}

/// A segment of a path as the engine reports it.
#[derive(Debug)]
pub struct RawSegment {
    pub point: Answer<Point>,
    pub kind: i32,
    pub close: i32,
}

/// A page object as the engine reports it. `None` among its children or its
/// segments stands for a null handle.
#[derive(Debug)]
pub struct PageObject {
    /// The type code.
    pub kind: i32,
    /// The object's matrix; the identity where the query left it untouched.
    pub matrix: Answer<Matrix>,
    /// The object's bounds in the content space that holds it.
    pub bounds: Answer<RectF>,
    pub draw_mode: Answer<DrawMode>,
    pub stroke_color: Answer<Channels>,
    pub fill_color: Answer<Channels>,
    pub stroke_width: Single,
    /// The segments, for a path object.
    pub segments: Vec<Option<RawSegment>>,
    /// The objects of a form, for a form object.
    pub children: Vec<Option<PageObject>>,
}

/// Bounding box of an embedded object on a page, in points, with the origin
/// at the top left corner and the y axis pointing down.
#[derive(Clone, Copy, Debug, PartialEq, Eq, Structural)]
pub struct ImageBounds {
    pub x: Single,
    pub y: Single,
    pub width: Single,
    pub height: Single,
}

/// The page that objects lie on, and the sizes that are of interest.
#[derive(Clone, Copy, Debug, PartialEq, Eq, Structural)]
pub struct SizeLimits {
    /// The width and height of the page as it is shown, its rotation applied.
    pub page_width: Single,
    pub page_height: Single,
    /// The visible part of the page, in page space.
    pub view_box: RectF,
    /// The page's rotation in quarter turns clockwise.
    pub rotation: i32,
    /// The least width and height.
    pub min_size: Single,
    /// The fraction of the page that a box may cover.
    pub max_coverage: Single,
}

impl SizeLimits {
    /// Whether a width or a height is too small.
    pub open spec fn too_small(self, width: Single, height: Single) -> bool {
        width.lt(self.min_size) || height.lt(self.min_size)
    }

    /// Whether both a width and a height cover too much of the page.
    pub open spec fn too_large(self, width: Single, height: Single) -> bool {
        &&& self.page_width.product(self.max_coverage).lt(width)
        &&& self.page_height.product(self.max_coverage).lt(height)
    }

    /// A box of the page in viewport coordinates: counted from the corner of
    /// the view box that the page's rotation brings to the top left.
    pub open spec fn in_viewport(self, area: RectF) -> ImageBounds {
        let width = area.right.difference(area.left);
        let height = area.top.difference(area.bottom);
        if self.rotation == 1 {
            ImageBounds {
                x: area.bottom.difference(self.view_box.bottom),
                y: area.left.difference(self.view_box.left),
                width: height,
                height: width,
            }
        } else if self.rotation == 2 {
            ImageBounds {
                x: self.view_box.right.difference(area.right),
                y: area.bottom.difference(self.view_box.bottom),
                width,
                height,
            }
        } else if self.rotation == 3 {
            ImageBounds {
                x: self.view_box.top.difference(area.top),
                y: self.view_box.right.difference(area.right),
                width: height,
                height: width,
            }
        } else {
            ImageBounds {
                x: area.left.difference(self.view_box.left),
                y: self.view_box.top.difference(area.top),
                width,
                height,
            }
        }
    }

    /// A box of the page in viewport coordinates, if its size there is within
    /// the limits.
    pub open spec fn placed(self, area: RectF) -> Option<ImageBounds> {
        let bounds = self.in_viewport(area);
        if self.too_small(bounds.width, bounds.height) || self.too_large(
            bounds.width,
            bounds.height,
        ) {
            None
        } else {
            Some(bounds)
        }
    }

    /// A box of the page in viewport coordinates.
    pub fn to_viewport(&self, area: &RectF) -> (bounds: ImageBounds)
        ensures
            bounds == self.in_viewport(*area),
    {
        let width: Single = area.right.minus(area.left);
        let height: Single = area.top.minus(area.bottom);
        if self.rotation == 1 {
            ImageBounds {
                x: area.bottom.minus(self.view_box.bottom),
                y: area.left.minus(self.view_box.left),
                width: height,
                height: width,
            }
        } else if self.rotation == 2 {
            ImageBounds {
                x: self.view_box.right.minus(area.right),
                y: area.bottom.minus(self.view_box.bottom),
                width,
                height,
            }
        } else if self.rotation == 3 {
            ImageBounds {
                x: self.view_box.top.minus(area.top),
                y: self.view_box.right.minus(area.right),
                width: height,
                height: width,
            }
        } else {
            ImageBounds {
                x: area.left.minus(self.view_box.left),
                y: self.view_box.top.minus(area.top),
                width,
                height,
            }
        }
    }

    /// A box of the page in viewport coordinates, unless it is smaller than
    /// the least size in either dimension, or covers too much of the page in
    /// both.
    pub fn place(&self, area: &RectF) -> (bounds: Option<ImageBounds>)
        ensures
            bounds == self.placed(*area),
    {
        let bounds: ImageBounds = self.to_viewport(area);
        if bounds.width.less_than(self.min_size) || bounds.height.less_than(self.min_size) {
            return None;
        }
        if self.page_width.times(self.max_coverage).less_than(bounds.width)
            && self.page_height.times(self.max_coverage).less_than(bounds.height) {
            return None;
        }
        Some(bounds)
    }
}

/// Whether an entry of a page is an image object.
pub open spec fn is_image(entry: Option<PageObject>) -> bool {
    entry matches Some(object) && object.kind == IMAGE_OBJECT
}

/// The box of an entry that is an image object of a size within the limits.
pub open spec fn image_box_of(entry: Option<PageObject>, limits: SizeLimits) -> Option<
    ImageBounds,
> {
    if is_image(entry) && entry->0.bounds.given() {
        limits.placed(entry->0.bounds.value)
    } else {
        None
    }
}

/// The boxes of the image objects of a page, in the order of the objects.
pub open spec fn image_boxes(objects: Seq<Option<PageObject>>, limits: SizeLimits) -> Seq<
    ImageBounds,
>
    decreases objects.len(),
{
    if objects.len() == 0 {
        Seq::empty()
    } else {
        let before = image_boxes(objects.drop_last(), limits);
        match image_box_of(objects.last(), limits) {
            Some(bounds) => before.push(bounds),
            None => before,
        }
    }
}

/// The boxes of the image objects of a page.
pub fn collect_images(objects: &Vec<Option<PageObject>>, limits: &SizeLimits) -> (boxes: Vec<
    ImageBounds,
>)
    ensures
        boxes@ == image_boxes(objects@, *limits),
{
    let mut boxes: Vec<ImageBounds> = Vec::new();
    for i in 0..objects.len()
        invariant
            boxes@ == image_boxes(objects@.take(i as int), *limits),
    {
        proof {
            assert(objects@.take(i + 1).drop_last() =~= objects@.take(i as int));
        }
        if let Some(object) = &objects[i] {
            if object.kind == IMAGE_OBJECT && object.bounds.ok != 0 {
                if let Some(bounds) = limits.place(&object.bounds.value) {
                    boxes.push(bounds);
                }
            }
        }
    }
    proof {
        assert(objects@.take(objects@.len() as int) =~= objects@);
    }
    boxes
}

/// The number of image objects among the entries of a page.
pub open spec fn image_count(objects: Seq<Option<PageObject>>) -> nat
    decreases objects.len(),
{
    if objects.len() == 0 {
        0
    } else {
        image_count(objects.drop_last()) + if is_image(objects.last()) {
            1nat
        } else {
            0
        }
    }
}

/// The position of an image object, counted among the image objects only.
pub fn find_image(objects: &Vec<Option<PageObject>>, image_obj_index: usize) -> (position: Option<
    usize,
>)
    ensures
        position matches Some(at) ==> {
            &&& at < objects@.len()
            &&& is_image(objects@[at as int])
            &&& image_count(objects@.take(at as int)) == image_obj_index
        },
        position is Some <==> image_obj_index < image_count(objects@),
{
    let mut image_idx: usize = 0;
    for i in 0..objects.len()
        invariant
            image_idx == image_count(objects@.take(i as int)),
            image_idx <= image_obj_index,
            image_idx <= i,
    {
        proof {
            assert(objects@.take(i + 1).drop_last() =~= objects@.take(i as int));
        }
        if let Some(object) = &objects[i] {
            if object.kind == IMAGE_OBJECT {
                if image_idx == image_obj_index {
                    proof {
                        lemma_image_count_grows(objects@, i + 1);
                    }
                    return Some(i);
                }
                image_idx = image_idx + 1;
            }
        }
    }
    proof {
        assert(objects@.take(objects@.len() as int) =~= objects@);
    }
    None
}

/// The entries from the start up to a position hold no more image objects
/// than all of them.
pub proof fn lemma_image_count_grows(objects: Seq<Option<PageObject>>, end: int)
    requires
        0 <= end <= objects.len(),
    ensures
        image_count(objects.take(end)) <= image_count(objects),
    decreases objects.len() - end,
{
    if end == objects.len() {
        assert(objects.take(end) =~= objects);
    } else {
        lemma_image_count_grows(objects, end + 1);
        assert(objects.take(end + 1).drop_last() =~= objects.take(end));
    }
}

/// Every image box that is returned has a size within the limits: neither its
/// width nor its height is below the least size, and it does not exceed the
/// coverage in both.
pub proof fn lemma_image_boxes_within_limits(
    objects: Seq<Option<PageObject>>,
    limits: SizeLimits,
)
    ensures
        all_within(image_boxes(objects, limits), limits),
    decreases objects.len(),
{
    if objects.len() > 0 {
        lemma_image_boxes_within_limits(objects.drop_last(), limits);
    }
}

/// Whether a width and a height are within the limits: neither is below the
/// least size, and one of them at least is not above what is to be covered of
/// the page.
pub open spec fn size_fits(limits: SizeLimits, width: Single, height: Single) -> bool {
    &&& !width.lt(limits.min_size)
    &&& !height.lt(limits.min_size)
    &&& !limits.page_width.product(limits.max_coverage).lt(width)
        || !limits.page_height.product(limits.max_coverage).lt(height)
}

/// Whether the sizes of all boxes are within the limits.
pub open spec fn all_within(boxes: Seq<ImageBounds>, limits: SizeLimits) -> bool {
    forall|i: int|
        0 <= i < boxes.len() ==> {
            let bounds = #[trigger] boxes[i];
            size_fits(limits, bounds.width, bounds.height)
        }
}

/// The image boxes of objects are those of the first of them, followed by
/// those of the rest.
pub proof fn lemma_image_boxes_concat(
    first: Seq<Option<PageObject>>,
    second: Seq<Option<PageObject>>,
    limits: SizeLimits,
)
    ensures
        image_boxes(first + second, limits) == image_boxes(first, limits) + image_boxes(
            second,
            limits,
        ),
    decreases second.len(),
{
    if second.len() == 0 {
        assert(first + second =~= first);
        assert(image_boxes(first, limits) + image_boxes(second, limits) =~= image_boxes(
            first,
            limits,
        ));
    } else {
        lemma_image_boxes_concat(first, second.drop_last(), limits);
        assert((first + second).drop_last() =~= first + second.drop_last());
        assert((first + second).last() == second.last());
    }
}

/// No more boxes are returned than there are image objects.
pub proof fn lemma_image_boxes_count(objects: Seq<Option<PageObject>>, limits: SizeLimits)
    ensures
        image_boxes(objects, limits).len() <= image_count(objects),
    decreases objects.len(),
{
    if objects.len() > 0 {
        lemma_image_boxes_count(objects.drop_last(), limits);
    }
}

/// Image objects are numbered in their order, without gaps or repetitions: an
/// image object has a number below their count, and of two, the later has the
/// larger number.
pub proof fn lemma_image_numbers(objects: Seq<Option<PageObject>>, at: int, later: int)
    requires
        0 <= at < later <= objects.len(),
        is_image(objects[at]),
    ensures
        image_count(objects.take(at)) < image_count(objects.take(later)),
        image_count(objects.take(at)) < image_count(objects),
{
    assert(objects.take(at + 1).drop_last() =~= objects.take(at));
    lemma_image_count_grows(objects.take(later), at + 1);
    assert(objects.take(later).take(at + 1) =~= objects.take(at + 1));
    lemma_image_count_grows(objects, at + 1);
}

/// A number belongs to one image object only.
pub proof fn lemma_image_number_is_unique(objects: Seq<Option<PageObject>>, i: int, j: int)
    requires
        0 <= i < objects.len(),
        0 <= j < objects.len(),
        is_image(objects[i]),
        is_image(objects[j]),
        image_count(objects.take(i)) == image_count(objects.take(j)),
    ensures
        i == j,
{
    if i < j {
        lemma_image_numbers(objects, i, j);
    } else if j < i {
        lemma_image_numbers(objects, j, i);
    }
}

/// Whether two entries are alike as far as forms nested to a number of levels
/// show.
pub open spec fn alike(
    first: Option<PageObject>,
    second: Option<PageObject>,
    levels: nat,
) -> bool
    decreases levels, 0nat,
{
    match (first, second) {
        (Some(a), Some(b)) => {
            &&& a.kind == b.kind
            &&& a.matrix == b.matrix
            &&& a.bounds == b.bounds
            &&& a.draw_mode == b.draw_mode
            &&& a.stroke_color == b.stroke_color
            &&& a.fill_color == b.fill_color
            &&& a.stroke_width == b.stroke_width
            &&& a.segments@ == b.segments@
            &&& levels > 0 ==> all_alike(a.children@, b.children@, (levels - 1) as nat)
        },
        (None, None) => true,
        _ => false,
    }
}

/// Whether the entries of two sequences are alike, one by one.
pub open spec fn all_alike(
    first: Seq<Option<PageObject>>,
    second: Seq<Option<PageObject>>,
    levels: nat,
) -> bool
    decreases levels, first.len() + 1,
{
    &&& first.len() == second.len()
    &&& first.len() > 0 ==> {
        &&& all_alike(first.drop_last(), second.drop_last(), levels)
        &&& alike(first.last(), second.last(), levels)
    }
}

impl ImageBounds {
    /// Whether the numbers of two boxes are the same.
    pub open spec fn same_numbers(self, other: ImageBounds) -> bool {
        &&& self.x.same_number(other.x) && self.y.same_number(other.y)
        &&& self.width.same_number(other.width) && self.height.same_number(other.height)
    }
}

/// Whether two sequences hold boxes of the same numbers, one by one.
pub open spec fn same_boxes(first: Seq<ImageBounds>, second: Seq<ImageBounds>) -> bool {
    &&& first.len() == second.len()
    &&& forall|i: int| 0 <= i < first.len() ==> (#[trigger] first[i]).same_numbers(second[i])
}

/// Boxes of the same numbers are placed at the same numbers, or both left out.
pub proof fn lemma_placed_same(limits: SizeLimits, first: RectF, second: RectF)
    requires
        first.same_numbers(second),
    ensures
        limits.in_viewport(first).same_numbers(limits.in_viewport(second)),
        limits.placed(first) is Some <==> limits.placed(second) is Some,
{
    let view_box = limits.view_box;
    single::lemma_difference_same(first.right, second.right, first.left, second.left);
    single::lemma_difference_same(first.top, second.top, first.bottom, second.bottom);
    single::lemma_difference_same(first.left, second.left, view_box.left, view_box.left);
    single::lemma_difference_same(first.bottom, second.bottom, view_box.bottom, view_box.bottom);
    single::lemma_difference_same(view_box.right, view_box.right, first.right, second.right);
    single::lemma_difference_same(view_box.top, view_box.top, first.top, second.top);
    let bounds = limits.in_viewport(first);
    let other = limits.in_viewport(second);
    let least = limits.min_size;
    let wide = limits.page_width.product(limits.max_coverage);
    let high = limits.page_height.product(limits.max_coverage);
    single::lemma_lt_same(bounds.width, other.width, least, least);
    single::lemma_lt_same(bounds.height, other.height, least, least);
    single::lemma_lt_same(wide, wide, bounds.width, other.width);
    single::lemma_lt_same(high, high, bounds.height, other.height);
}

/// The top left corner of a placed box is that of the box that the transform
/// to the view box gives, for finite boxes that are not inside out.
pub proof fn lemma_placed_as_transformed(limits: SizeLimits, area: RectF)
    requires
        area.is_finite(),
        area.is_ordered(),
        limits.view_box.is_finite(),
    ensures
        ({
            let transform = ViewportTransform::to_view_box(limits.view_box, limits.rotation);
            let rect = transform.image_rect(area);
            &&& rect.left.same_number(limits.in_viewport(area).x)
            &&& rect.top.same_number(limits.in_viewport(area).y)
        }),
{
    let view_box = limits.view_box;
    let transform = ViewportTransform::to_view_box(view_box, limits.rotation);
    reveal(Single::lt);
    // Across the page, counted from either side.
    geometry::lemma_shifted(area.left, area.bottom, view_box.left);
    geometry::lemma_shifted(area.right, area.top, view_box.left);
    geometry::lemma_shifted_ends(area.left, area.right, view_box.left);
    geometry::lemma_shifted(area.left, area.bottom, view_box.right);
    geometry::lemma_shifted(area.right, area.top, view_box.right);
    geometry::lemma_shifted_ends(area.left, area.right, view_box.right);
    // Up the page, counted from either side.
    geometry::lemma_shifted(area.bottom, area.left, view_box.bottom);
    geometry::lemma_shifted(area.top, area.right, view_box.bottom);
    geometry::lemma_shifted_ends(area.bottom, area.top, view_box.bottom);
    geometry::lemma_shifted(area.bottom, area.left, view_box.top);
    geometry::lemma_shifted(area.top, area.right, view_box.top);
    geometry::lemma_shifted_ends(area.bottom, area.top, view_box.top);
    let (x1, y1) = transform.image(area.left, area.bottom);
    let (x2, y2) = transform.image(area.right, area.top);
    if limits.rotation == 1 {
        single::lemma_extremes_same(
            x1,
            area.bottom.difference(view_box.bottom),
            x2,
            area.top.difference(view_box.bottom),
        );
        single::lemma_extremes_same(
            y1,
            area.left.difference(view_box.left),
            y2,
            area.right.difference(view_box.left),
        );
    } else if limits.rotation == 2 {
        single::lemma_extremes_same(
            x1,
            view_box.right.difference(area.left),
            x2,
            view_box.right.difference(area.right),
        );
        single::lemma_extremes_same(
            y1,
            area.bottom.difference(view_box.bottom),
            y2,
            area.top.difference(view_box.bottom),
        );
    } else if limits.rotation == 3 {
        single::lemma_extremes_same(
            x1,
            view_box.top.difference(area.bottom),
            x2,
            view_box.top.difference(area.top),
        );
        single::lemma_extremes_same(
            y1,
            view_box.right.difference(area.left),
            y2,
            view_box.right.difference(area.right),
        );
    } else {
        single::lemma_extremes_same(
            x1,
            area.left.difference(view_box.left),
            x2,
            area.right.difference(view_box.left),
        );
        single::lemma_extremes_same(
            y1,
            view_box.top.difference(area.bottom),
            y2,
            view_box.top.difference(area.top),
        );
    }
}

/// A box that lies within the view box is not placed left of the viewport or
/// above it.
pub proof fn lemma_visible_boxes_are_in_the_viewport(limits: SizeLimits, area: RectF)
    requires
        area.is_finite(),
        limits.view_box.is_finite(),
        !area.left.lt(limits.view_box.left),
        !limits.view_box.right.lt(area.right),
        !area.bottom.lt(limits.view_box.bottom),
        !limits.view_box.top.lt(area.top),
    ensures
        !limits.in_viewport(area).x.lt(Single::of_bits(0)),
        !limits.in_viewport(area).y.lt(Single::of_bits(0)),
{
    let view_box = limits.view_box;
    reveal(Single::lt);
    single::lemma_difference_sign(area.left, view_box.left);
    single::lemma_difference_sign(view_box.right, area.right);
    single::lemma_difference_sign(area.bottom, view_box.bottom);
    single::lemma_difference_sign(view_box.top, area.top);
}

/// A box is placed exactly where its width and its height in the viewport are
/// at least the least size, and its width or its height is not above the
/// page's times the coverage.
pub proof fn lemma_placed_by_size(limits: SizeLimits, area: RectF)
    ensures
        ({
            let bounds = limits.in_viewport(area);
            let wide = limits.page_width.product(limits.max_coverage).lt(bounds.width);
            let high = limits.page_height.product(limits.max_coverage).lt(bounds.height);
            let narrow = bounds.width.lt(limits.min_size);
            let flat = bounds.height.lt(limits.min_size);
            &&& narrow || flat ==> limits.placed(area) is None
            &&& wide && high ==> limits.placed(area) is None
            &&& !narrow && !flat && !wide ==> limits.placed(area) == Some(bounds)
            &&& !narrow && !flat && !high ==> limits.placed(area) == Some(bounds)
        }),
{
}

/// The numbers of a finite box in the viewport are the ones closest to its
/// distances from two sides of the view box, and to its two extents. Which
/// sides, and which extent is the width, goes by the rotation.
pub proof fn lemma_viewport_distances(limits: SizeLimits, area: RectF)
    requires
        area.is_finite(),
        limits.view_box.is_finite(),
    ensures
        ({
            let bounds = limits.in_viewport(area);
            let from_left = area.left.units() - limits.view_box.left.units();
            let from_right = limits.view_box.right.units() - area.right.units();
            let from_bottom = area.bottom.units() - limits.view_box.bottom.units();
            let from_top = limits.view_box.top.units() - area.top.units();
            let across = area.right.units() - area.left.units();
            let up = area.top.units() - area.bottom.units();
            let (x, y) = if limits.rotation == 1 {
                (from_bottom, from_left)
            } else if limits.rotation == 2 {
                (from_right, from_bottom)
            } else if limits.rotation == 3 {
                (from_top, from_right)
            } else {
                (from_left, from_top)
            };
            let (width, height) = if limits.rotation == 1 || limits.rotation == 3 {
                (up, across)
            } else {
                (across, up)
            };
            &&& bounds.x.is_closest(x, 1)
            &&& bounds.y.is_closest(y, 1)
            &&& bounds.width.is_closest(width, 1)
            &&& bounds.height.is_closest(height, 1)
        }),
{
    let view_box = limits.view_box;
    single::lemma_difference_is_closest(area.left, view_box.left);
    single::lemma_difference_is_closest(view_box.right, area.right);
    single::lemma_difference_is_closest(area.bottom, view_box.bottom);
    single::lemma_difference_is_closest(view_box.top, area.top);
    single::lemma_difference_is_closest(area.right, area.left);
    single::lemma_difference_is_closest(area.top, area.bottom);
}

/// Where a box lies in the viewport does not depend on the limits or on the
/// page's size.
pub proof fn lemma_viewport_is_that_of_the_view_box(
    limits: SizeLimits,
    other: SizeLimits,
    area: RectF,
)
    requires
        limits.view_box == other.view_box,
        limits.rotation == other.rotation,
    ensures
        limits.in_viewport(area) == other.in_viewport(area),
{
}

/// The entries that are image objects are those that are not null and have the
/// engine's code for images.
pub proof fn lemma_images_are_of_one_kind(entry: Option<PageObject>)
    ensures
        entry is None ==> !is_image(entry),
        entry matches Some(object) ==> (is_image(entry) <==> object.kind == 3),
{
}

/// Of one entry there is a box exactly where it is an image object whose
/// bounds can be read and whose size is within the limits, and the box is that
/// of its bounds.
pub proof fn lemma_image_boxes_of_one(entry: Option<PageObject>, limits: SizeLimits)
    ensures
        entry is None ==> image_boxes(seq![entry], limits).len() == 0,
        entry matches Some(object) ==> {
            let bounds = limits.in_viewport(object.bounds.value);
            image_boxes(seq![entry], limits) == (if object.kind == 3 && object.bounds.ok != 0
                && size_fits(limits, bounds.width, bounds.height) {
                seq![bounds]
            } else {
                Seq::empty()
            })
        },
        image_boxes(Seq::empty(), limits).len() == 0,
{
    let one = seq![entry];
    assert(one.drop_last() =~= Seq::<Option<PageObject>>::empty());
    assert(one.last() == entry);
    reveal_with_fuel(image_boxes, 2);
    assert(Seq::<ImageBounds>::empty().push(limits.in_viewport(entry->0.bounds.value)) =~= seq![
        limits.in_viewport(entry->0.bounds.value),
    ]);
}

/// An image object whose bounds can be read has its box in the result, behind
/// the boxes of the objects before it, if its width and its height are at
/// least the least size, and one of them is not above the page's times the
/// coverage.
pub proof fn lemma_image_is_boxed(objects: Seq<Option<PageObject>>, limits: SizeLimits, at: int)
    requires
        0 <= at < objects.len(),
        objects[at] is Some,
        objects[at]->0.kind == 3,
        objects[at]->0.bounds.ok != 0,
        ({
            let bounds = limits.in_viewport(objects[at]->0.bounds.value);
            &&& !bounds.width.lt(limits.min_size)
            &&& !bounds.height.lt(limits.min_size)
            &&& !limits.page_width.product(limits.max_coverage).lt(bounds.width)
                || !limits.page_height.product(limits.max_coverage).lt(bounds.height)
        }),
    ensures
        ({
            let boxes = image_boxes(objects, limits);
            let before = image_boxes(objects.take(at), limits).len() as int;
            &&& before < boxes.len()
            &&& boxes[before] == limits.in_viewport(objects[at]->0.bounds.value)
        }),
{
    let one = seq![objects[at]];
    let rest = objects.skip(at + 1);
    assert(objects =~= objects.take(at) + (one + rest));
    lemma_image_boxes_concat(objects.take(at), one + rest, limits);
    lemma_image_boxes_concat(one, rest, limits);
    lemma_image_boxes_of_one(objects[at], limits);
}

/// Images are counted one by one: an entry raises their number by one exactly
/// where it is an image object.
pub proof fn lemma_images_are_counted(objects: Seq<Option<PageObject>>, at: int)
    requires
        0 <= at < objects.len(),
    ensures
        image_count(objects.take(0)) == 0,
        objects[at] is None ==> image_count(objects.take(at + 1)) == image_count(objects.take(at)),
        objects[at] matches Some(object) ==> image_count(objects.take(at + 1)) == image_count(
            objects.take(at),
        ) + (if object.kind == 3 {
            1nat
        } else {
            0
        }),
{
    assert(objects.take(at + 1).drop_last() =~= objects.take(at));
}

/// Whether a number is the distance from one to another where either is not
/// finite: NaN where one of them is, and an infinity where only one is.
pub open spec fn is_unbounded(distance: Single, to: Single, from: Single) -> bool {
    &&& to.is_nan() || from.is_nan() ==> distance.is_nan()
    &&& to.is_infinite() && from.is_finite() ==> distance == to
    &&& to.is_finite() && from.is_infinite() ==> distance == from.negation()
}

/// The numbers in the viewport of a box that is not finite are not finite
/// either, those alone that count from what is not.
pub proof fn lemma_viewport_of_unbounded(limits: SizeLimits, area: RectF)
    ensures
        ({
            let bounds = limits.in_viewport(area);
            let view_box = limits.view_box;
            let turned = limits.rotation == 1 || limits.rotation == 3;
            let (across, up) = if turned {
                (bounds.height, bounds.width)
            } else {
                (bounds.width, bounds.height)
            };
            &&& is_unbounded(across, area.right, area.left)
            &&& is_unbounded(up, area.top, area.bottom)
            &&& limits.rotation == 1 ==> is_unbounded(bounds.x, area.bottom, view_box.bottom)
                && is_unbounded(bounds.y, area.left, view_box.left)
            &&& limits.rotation == 2 ==> is_unbounded(bounds.x, view_box.right, area.right)
                && is_unbounded(bounds.y, area.bottom, view_box.bottom)
            &&& limits.rotation == 3 ==> is_unbounded(bounds.x, view_box.top, area.top)
                && is_unbounded(bounds.y, view_box.right, area.right)
            &&& !turned && limits.rotation != 2 ==> is_unbounded(
                bounds.x,
                area.left,
                view_box.left,
            ) && is_unbounded(bounds.y, view_box.top, area.top)
        }),
{
    let view_box = limits.view_box;
    single::lemma_difference_beyond(area.right, area.left);
    single::lemma_difference_beyond(area.top, area.bottom);
    single::lemma_difference_beyond(area.left, view_box.left);
    single::lemma_difference_beyond(area.bottom, view_box.bottom);
    single::lemma_difference_beyond(view_box.right, area.right);
    single::lemma_difference_beyond(view_box.top, area.top);
}

} // verus!
