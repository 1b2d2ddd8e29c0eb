//! A page, and what is read from it.

use crate::color::Answer;
use crate::filled;
use crate::filled::collect_filled_among;
use crate::geometry;
use crate::geometry::{DevicePoint, Matrix, RectF, ViewportTransform, THOUSAND};
use crate::link;
use crate::link::{collect_link_areas, place_links, LinkAnnot, LinkArea, PdfLink};
use crate::object;
use crate::object::{collect_images, find_image, ImageBounds, PageObject, SizeLimits};
use crate::path;
use crate::path::{collect_paths_among, PathObject, PathView};
use crate::rounding;
use crate::single;
use crate::single::{Single, ONE};
use vstd::arithmetic::mul;
use vstd::arithmetic::power2;
use vstd::prelude::*;

verus! {

/// The bits of 72.0, the number of points in an inch.
pub const POINTS_PER_INCH: u32 = 0x4290_0000;

/// The colour that a bitmap is filled with before rendering: opaque white.
pub const WHITE: u32 = 0xffff_ffff;

/// The engine's flags for rendering annotations, and for rendering for print.
pub const RENDER_FLAGS: i32 = 0x801;

/// What can go wrong in the PDF engine.
#[derive(Clone, Copy, Debug, PartialEq, Eq, Structural)]
pub enum PdfiumError {
    OperationFailed,
}

/// A query for where a point of the page lies on a device of a given size.
#[derive(Clone, Copy, Debug, PartialEq, Eq, Structural)]
pub struct DeviceRequest {
    pub start_x: i32,
    pub start_y: i32,
    pub size_x: i32,
    pub size_y: i32,
    /// The turn to add to the page's own, which the engine applies itself.
    pub rotate: i32,
    pub page_x: Single,
    pub page_y: Single,
}

/// An order to render the page into a bitmap.
#[derive(Clone, Copy, Debug, PartialEq, Eq, Structural)]
pub struct RenderRequest {
    pub width: i32,
    pub height: i32,
    /// The colour to fill the bitmap with first.
    pub background: u32,
    pub start_x: i32,
    pub start_y: i32,
    /// The turn to add to the page's own.
    pub rotate: i32,
    pub flags: i32,
}

/// A page as the PDF engine reports it. `None` among its objects or its links
/// stands for a null handle.
#[derive(Debug)]
pub struct Page {
    /// The width and height of the page as it is shown, its rotation applied.
    pub width: Single,
    pub height: Single,
    /// The page's rotation in quarter turns clockwise.
    pub rotation: i32,
    /// The crop box, or the media box where there is none.
    pub bounding_box: Answer<RectF>,
    pub objects: Vec<Option<PageObject>>,
    pub links: Vec<Option<LinkAnnot>>,
}

/// A handle that the engine returned, `None` standing for null.
pub fn loaded<H>(handle: Option<H>) -> (result: Result<H, PdfiumError>)
    ensures
        result == (match handle {
            Some(loaded) => Ok(loaded),
            None => Err(PdfiumError::OperationFailed),
        }),
{
    match handle {
        Some(loaded) => Ok(loaded),
        None => Err(PdfiumError::OperationFailed),
    }
}

impl Page {
    /// The width and height of a box of the page in the viewport.
    pub open spec fn viewport_size(self, view_box: RectF) -> (Single, Single) {
        let width = view_box.right.difference(view_box.left);
        let height = view_box.top.difference(view_box.bottom);
        if self.rotation == 1 || self.rotation == 3 {
            (height, width)
        } else {
            (width, height)
        }
    }

    /// The query for where a point of the page lies, on a device of a thousand
    /// units to the point.
    pub open spec fn request_for(self, view_box: RectF, x: Single, y: Single) -> DeviceRequest {
        let (width, height) = self.viewport_size(view_box);
        let scale = Single::of_bits(THOUSAND);
        DeviceRequest {
            start_x: 0,
            start_y: 0,
            size_x: width.product(scale).rounded() as i32,
            size_y: height.product(scale).rounded() as i32,
            rotate: 0,
            page_x: x,
            page_y: y,
        }
    }

    /// The visible part of the page, in page space: its bounding box, or, where
    /// that cannot be read, a box at the origin that is shown in the page's
    /// size.
    pub open spec fn visible_box(self) -> RectF {
        if self.bounding_box.given() {
            self.bounding_box.value
        } else {
            let zero = Single::of_bits(0);
            let (right, top) = if self.rotation == 1 || self.rotation == 3 {
                (self.height, self.width)
            } else {
                (self.width, self.height)
            };
            RectF { left: zero, top, right, bottom: zero }
        }
    }

    /// The queries for the lower left and the upper right corner of a box.
    pub open spec fn corner_requests(self, view_box: RectF, page_bounds: RectF) -> (
        DeviceRequest,
        DeviceRequest,
    ) {
        (
            self.request_for(view_box, page_bounds.left, page_bounds.bottom),
            self.request_for(view_box, page_bounds.right, page_bounds.top),
        )
    }

    /// The queries for the origin and the two unit points.
    pub open spec fn probe_requests(self, view_box: RectF) -> (
        DeviceRequest,
        DeviceRequest,
        DeviceRequest,
    ) {
        let one = Single::of_bits(ONE);
        let zero = Single::of_bits(0);
        (
            self.request_for(view_box, zero, zero),
            self.request_for(view_box, one, zero),
            self.request_for(view_box, zero, one),
        )
    }

    /// The box between two corners that were found on the device.
    pub open spec fn found_box(lower_left: DevicePoint, upper_right: DevicePoint) -> RectF {
        RectF::spanned(lower_left.in_viewport(), upper_right.in_viewport())
    }

    /// The limits on the sizes of boxes on this page.
    pub open spec fn limits(self, min_size_pt: Single, max_page_coverage: Single) -> SizeLimits {
        SizeLimits {
            page_width: self.width,
            page_height: self.height,
            view_box: self.visible_box(),
            rotation: self.rotation,
            min_size: min_size_pt,
            max_coverage: max_page_coverage,
        }
    }

    /// The bounding box, where it can be read.
    pub open spec fn shown_box(self) -> Option<RectF> {
        if self.bounding_box.given() {
            Some(self.bounding_box.value)
        } else {
            None
        }
    }

    /// The order to render the page at a resolution.
    pub open spec fn rendering(self, dpi: Single) -> RenderRequest {
        let scale = dpi.quotient(Single::of_bits(POINTS_PER_INCH));
        RenderRequest {
            width: self.width.product(scale).rounded() as i32,
            height: self.height.product(scale).rounded() as i32,
            background: WHITE,
            start_x: 0,
            start_y: 0,
            rotate: 0,
            flags: RENDER_FLAGS,
        }
    }

    /// The boxes of the page's image objects.
    pub open spec fn images(self, min_size_pt: Single, max_page_coverage: Single) -> Seq<
        ImageBounds,
    > {
        object::image_boxes(self.objects@, self.limits(min_size_pt, max_page_coverage))
    }

    /// The boxes of the page's filled paths.
    pub open spec fn filled_paths(self, min_size_pt: Single, max_page_coverage: Single) -> Seq<
        ImageBounds,
    > {
        filled::filled_among(
            self.objects@,
            None,
            self.limits(min_size_pt, max_page_coverage),
            0,
        )
    }

    /// The page's vector paths.
    pub open spec fn paths(self, transform: ViewportTransform) -> Seq<PathView> {
        path::paths_among(self.objects@, Matrix::unit(), transform, 0)
    }

    /// The page's width in points.
    pub fn width(&self) -> (width: Single)
        ensures
            width == self.width,
    {
        self.width
    }

    /// The page's height in points.
    pub fn height(&self) -> (height: Single)
        ensures
            height == self.height,
    {
        self.height
    }

    /// The page's rotation in quarter turns.
    pub fn rotation(&self) -> (rotation: i32)
        ensures
            rotation == self.rotation,
    {
        self.rotation
    }

    /// Get the page bounding box (CropBox, falls back to MediaBox).
    /// Coordinates in PDF page space.
    pub fn view_box(&self) -> (view_box: Option<RectF>)
        ensures
            view_box == (if self.bounding_box.given() {
                Some(self.bounding_box.value)
            } else {
                None
            }),
            view_box == self.shown_box(),
    {
        if self.bounding_box.ok != 0 {
            Some(self.bounding_box.value)
        } else {
            None
        }
    }

    /// What to ask the engine about a point of the page, so that
    /// `page_to_viewport` can be told where it lies.
    pub fn device_request(&self, view_box: &RectF, page_x: Single, page_y: Single) -> (request:
        DeviceRequest)
        ensures
            request == self.request_for(*view_box, page_x, page_y),
    {
        let width: Single = view_box.right.minus(view_box.left);
        let height: Single = view_box.top.minus(view_box.bottom);
        let scale: Single = Single::from_bits(THOUSAND);
        let (vw, vh) = if self.rotation == 1 || self.rotation == 3 {
            // A quarter turn either way swaps the dimensions.
            (height, width)
        } else {
            (width, height)
        };
        DeviceRequest {
            start_x: 0,
            start_y: 0,
            size_x: vw.times(scale).round(),
            size_y: vh.times(scale).round(),
            rotate: 0,
            page_x,
            page_y,
        }
    }

    /// Convert a point of the page to viewport space (top-left origin, 72 DPI)
    /// from where the engine found it on the device.
    pub fn page_to_viewport(point: &DevicePoint) -> (viewport: (Single, Single))
        ensures
            viewport == point.in_viewport(),
    {
        point.to_viewport()
    }

    /// What to ask the engine about the lower left and the upper right corner
    /// of a box of the page, for `bounds_to_viewport`.
    pub fn bounds_requests(&self, view_box: &RectF, page_bounds: &RectF) -> (requests: (
        DeviceRequest,
        DeviceRequest,
    ))
        ensures
            requests.0 == self.request_for(*view_box, page_bounds.left, page_bounds.bottom),
            requests.1 == self.request_for(*view_box, page_bounds.right, page_bounds.top),
            requests == self.corner_requests(*view_box, *page_bounds),
    {
        (
            self.device_request(view_box, page_bounds.left, page_bounds.bottom),
            self.device_request(view_box, page_bounds.right, page_bounds.top),
        )
    }

    /// Convert bounds from PDF page space to viewport space (top-left origin)
    /// from where the engine found their corners.
    pub fn bounds_to_viewport(lower_left: &DevicePoint, upper_right: &DevicePoint) -> (rect: RectF)
        ensures
            rect == RectF::spanned(lower_left.in_viewport(), upper_right.in_viewport()),
            rect == Page::found_box(*lower_left, *upper_right),
    {
        RectF::span(Page::page_to_viewport(lower_left), Page::page_to_viewport(upper_right))
    }

    /// The text of the page, if the engine could load it.
    pub fn text<H>(handle: Option<H>) -> (result: Result<H, PdfiumError>)
        ensures
            result == (match handle {
                Some(text) => Ok(text),
                None => Err(PdfiumError::OperationFailed),
            }),
    {
        loaded(handle)
    }

    /// How to render the page at the given DPI.
    pub fn render(&self, dpi: Single) -> (request: RenderRequest)
        ensures
            ({
                let scale = dpi.quotient(Single::of_bits(POINTS_PER_INCH));
                &&& request.width == self.width.product(scale).rounded()
                &&& request.height == self.height.product(scale).rounded()
                &&& request.background == WHITE
                &&& request.start_x == 0
                &&& request.start_y == 0
                &&& request.rotate == 0
                &&& request.flags == RENDER_FLAGS
            }),
            request == self.rendering(dpi),
    {
        let scale: Single = dpi.divided_by(Single::from_bits(POINTS_PER_INCH));
        RenderRequest {
            width: self.width.times(scale).round(),
            height: self.height.times(scale).round(),
            background: WHITE,
            start_x: 0,
            start_y: 0,
            rotate: 0,
            flags: RENDER_FLAGS,
        }
    }

    /// The limits on the sizes of boxes on this page.
    fn size_limits(&self, min_size_pt: Single, max_page_coverage: Single) -> (limits: SizeLimits)
        ensures
            limits == self.limits(min_size_pt, max_page_coverage),
    {
        let view_box: RectF = match self.view_box() {
            Some(view_box) => view_box,
            None => {
                let zero: Single = Single::from_bits(0);
                // A page turned by a quarter is as wide as its box is high.
                let (right, top) = if self.rotation == 1 || self.rotation == 3 {
                    (self.height, self.width)
                } else {
                    (self.width, self.height)
                };
                RectF { left: zero, top, right, bottom: zero }
            },
        };
        SizeLimits {
            page_width: self.width,
            page_height: self.height,
            view_box,
            rotation: self.rotation,
            min_size: min_size_pt,
            max_coverage: max_page_coverage,
        }
    }

    /// Bounding boxes of the embedded image objects on this page, in viewport
    /// space and in points. Images smaller than `min_size_pt` are left out, as
    /// are images covering more than `max_page_coverage` of the page.
    pub fn image_bounds(&self, min_size_pt: Single, max_page_coverage: Single) -> (boxes: Vec<
        ImageBounds,
    >)
        ensures
            boxes@ == object::image_boxes(
                self.objects@,
                self.limits(min_size_pt, max_page_coverage),
            ),
            boxes@ == self.images(min_size_pt, max_page_coverage),
    {
        let limits: SizeLimits = self.size_limits(min_size_pt, max_page_coverage);
        collect_images(&self.objects, &limits)
    }

    /// Bounding boxes of the filled vector paths on this page, through nested
    /// forms, in viewport space and in points. Stroke-only paths are left out,
    /// as are paths smaller than `min_size_pt` in either dimension and paths
    /// covering more than `max_page_coverage` of the page in both.
    pub fn filled_path_bounds(&self, min_size_pt: Single, max_page_coverage: Single) -> (boxes: Vec<
        ImageBounds,
    >)
        ensures
            boxes@ == filled::filled_among(
                self.objects@,
                None,
                self.limits(min_size_pt, max_page_coverage),
                0,
            ),
            boxes@ == self.filled_paths(min_size_pt, max_page_coverage),
    {
        let limits: SizeLimits = self.size_limits(min_size_pt, max_page_coverage);
        let mut boxes: Vec<ImageBounds> = Vec::new();
        collect_filled_among(&self.objects, &None, &limits, 0, &mut boxes);
        boxes
    }

    /// The position among the page's objects of an embedded image object, by
    /// its index among the image objects only: the object whose bitmap to ask
    /// for.
    pub fn render_image_object(&self, image_obj_index: usize) -> (position: Result<
        usize,
        PdfiumError,
    >)
        ensures
            position is Ok <==> image_obj_index < object::image_count(self.objects@),
            position matches Ok(at) ==> {
                &&& at < self.objects@.len()
                &&& object::is_image(self.objects@[at as int])
                &&& object::image_count(self.objects@.take(at as int)) == image_obj_index
            },
            position matches Err(error) ==> error == PdfiumError::OperationFailed,
    {
        loaded(find_image(&self.objects, image_obj_index))
    }

    /// The vector paths on this page, in viewport space, through nested forms:
    /// table rules and other vector art are often wrapped in a form.
    pub fn path_objects(&self, transform: &ViewportTransform) -> (paths: Vec<PathObject>)
        ensures
            path::views(paths@) == path::paths_among(
                self.objects@,
                Matrix::unit(),
                *transform,
                0,
            ),
            path::views(paths@) == self.paths(*transform),
    {
        let mut paths: Vec<PathObject> = Vec::new();
        collect_paths_among(&self.objects, &Matrix::identity(), transform, 0, &mut paths);
        proof {
            assert(path::views(paths@) =~= path::paths_among(
                self.objects@,
                Matrix::unit(),
                *transform,
                0,
            ));
        }
        paths
    }

    /// The parts of the page that URI links cover, in page space. Links whose
    /// action is not a URI are left out.
    pub fn link_areas(&self) -> (areas: Vec<LinkArea>)
        ensures
            link::area_views(areas@) == link::areas_among(self.links@),
            forall|i: int|
                0 <= i < self.links@.len() ==> link::link_reads_plainly(#[trigger] self.links@[i]),
    {
        collect_link_areas(&self.links)
    }

    /// The URI links of the page's link areas, from where the engine found the
    /// lower left and the upper right corner of each.
    pub fn links(areas: &Vec<LinkArea>, corners: &Vec<(DevicePoint, DevicePoint)>) -> (links: Vec<
        PdfLink,
    >)
        requires
            areas@.len() == corners@.len(),
        ensures
            link::link_views(links@) == link::placed_links(
                link::area_views(areas@),
                corners@,
            ),
    {
        place_links(areas, corners)
    }

    /// What to ask the engine about the page's origin and its two unit points,
    /// for `viewport_transform`.
    pub fn viewport_requests(&self, view_box: &RectF) -> (requests: (
        DeviceRequest,
        DeviceRequest,
        DeviceRequest,
    ))
        ensures
            ({
                let one = Single::of_bits(ONE);
                let zero = Single::of_bits(0);
                &&& requests.0 == self.request_for(*view_box, zero, zero)
                &&& requests.1 == self.request_for(*view_box, one, zero)
                &&& requests.2 == self.request_for(*view_box, zero, one)
            }),
            requests == self.probe_requests(*view_box),
    {
        let one: Single = Single::from_bits(ONE);
        let zero: Single = Single::from_bits(0);
        (
            self.device_request(view_box, zero, zero),
            self.device_request(view_box, one, zero),
            self.device_request(view_box, zero, one),
        )
    }

    /// Build a `ViewportTransform` from where the engine found the page's
    /// origin and its two unit points.
    pub fn viewport_transform(
        origin: &DevicePoint,
        unit_x: &DevicePoint,
        unit_y: &DevicePoint,
    ) -> (transform: ViewportTransform)
        ensures
            transform == ViewportTransform::probed(*origin, *unit_x, *unit_y),
    {
        ViewportTransform::from_probes(origin, unit_x, unit_y)
    }
}

/// A page turned by a quarter either way has its viewport's width and height
/// swapped, and so the device that its points are found on.
pub proof fn lemma_quarter_turn_swaps(
    upright: Page,
    turned: Page,
    view_box: RectF,
    x: Single,
    y: Single,
)
    requires
        upright.rotation != 1,
        upright.rotation != 3,
        turned.rotation == 1 || turned.rotation == 3,
    ensures
        turned.viewport_size(view_box).0 == upright.viewport_size(view_box).1,
        turned.viewport_size(view_box).1 == upright.viewport_size(view_box).0,
        turned.request_for(view_box, x, y).size_x == upright.request_for(view_box, x, y).size_y,
        turned.request_for(view_box, x, y).size_y == upright.request_for(view_box, x, y).size_x,
{
}

/// At 72 DPI a finite length keeps its size.
pub proof fn lemma_render_at_page_size(length: Single)
    requires
        length.is_finite(),
    ensures
        ({
            let dpi = Single::of_bits(POINTS_PER_INCH);
            let scale = dpi.quotient(Single::of_bits(POINTS_PER_INCH));
            length.product(scale) == length
        }),
{
    let dpi = Single::of_bits(POINTS_PER_INCH);
    reveal(Single::quotient);
    single::lemma_magnitude_of_one();
    rounding::lemma_magnitude_sign(dpi.pattern());
    rounding::lemma_exact(dpi.magnitude(), ONE as int);
    single::lemma_one_times(length);
}

/// A finite view box is placed at the origin of the viewport, in the
/// viewport's size.
pub proof fn lemma_view_box_fills_the_viewport(
    page: Page,
    min_size_pt: Single,
    max_page_coverage: Single,
)
    requires
        page.visible_box().is_finite(),
    ensures
        ({
            let view_box = page.visible_box();
            let bounds = page.limits(min_size_pt, max_page_coverage).in_viewport(view_box);
            &&& bounds.x.pattern() == 0
            &&& bounds.y.pattern() == 0
            &&& (bounds.width, bounds.height) == page.viewport_size(view_box)
        }),
{
    let view_box = page.visible_box();
    single::lemma_difference_sign(view_box.left, view_box.left);
    single::lemma_difference_sign(view_box.right, view_box.right);
    single::lemma_difference_sign(view_box.bottom, view_box.bottom);
    single::lemma_difference_sign(view_box.top, view_box.top);
}

/// Where the bounding box of a page of finite size cannot be read, the box in
/// its place is shown in the page's size.
pub proof fn lemma_missing_box_has_the_page_size(page: Page)
    requires
        !page.bounding_box.given(),
        page.width.is_finite(),
        page.height.is_finite(),
    ensures
        page.viewport_size(page.visible_box()).0.same_value(page.width),
        page.viewport_size(page.visible_box()).1.same_value(page.height),
{
    single::lemma_plus_zero(page.width, Single::of_bits(0).negation());
    single::lemma_plus_zero(page.height, Single::of_bits(0).negation());
}

/// The view box is the bounding box exactly where the query for it did not
/// fail; and what is visible is then that box, and else a box at the origin
/// that is as wide and as high as the page before it is turned.
pub proof fn lemma_view_box_is_the_bounding_box(page: Page)
    ensures
        page.shown_box() is Some <==> page.bounding_box.ok != 0,
        page.bounding_box.ok != 0 ==> {
            &&& page.shown_box() == Some(page.bounding_box.value)
            &&& page.visible_box() == page.bounding_box.value
        },
        page.bounding_box.ok == 0 ==> {
            let view_box = page.visible_box();
            let turned = page.rotation == 1 || page.rotation == 3;
            &&& view_box.left.bits == 0 && view_box.bottom.bits == 0
            &&& !turned ==> view_box.right == page.width && view_box.top == page.height
            &&& turned ==> view_box.right == page.height && view_box.top == page.width
        },
{
}

/// Boxes are held against the page's own size, view box and rotation, and
/// against the sizes that the caller gives.
pub proof fn lemma_limits_are_the_pages(
    page: Page,
    min_size_pt: Single,
    max_page_coverage: Single,
)
    ensures
        ({
            let limits = page.limits(min_size_pt, max_page_coverage);
            &&& limits.page_width == page.width
            &&& limits.page_height == page.height
            &&& limits.view_box == page.visible_box()
            &&& limits.rotation == page.rotation
            &&& limits.min_size == min_size_pt
            &&& limits.max_coverage == max_page_coverage
        }),
{
}

/// A query for a point is made of that point, on a device that starts at the
/// origin, adds no turn, and is a thousand times as large as the viewport; the
/// size of the device does not depend on the point.
pub proof fn lemma_requests_are_for_the_point(
    page: Page,
    view_box: RectF,
    x: Single,
    y: Single,
    other_x: Single,
    other_y: Single,
)
    ensures
        ({
            let request = page.request_for(view_box, x, y);
            let other = page.request_for(view_box, other_x, other_y);
            let (width, height) = page.viewport_size(view_box);
            let thousand = Single::of_int(1000);
            &&& request.page_x == x && request.page_y == y
            &&& request.start_x == 0 && request.start_y == 0 && request.rotate == 0
            &&& request.size_x == other.size_x && request.size_y == other.size_y
            &&& request.size_x == width.product(thousand).rounded()
            &&& request.size_y == height.product(thousand).rounded()
        }),
{
    let (width, height) = page.viewport_size(view_box);
    assert(Single::of_int(1000) == Single::of_bits(THOUSAND)) by {
        reveal(Single::of_int);
        assert(rounding::magnitude(THOUSAND as int) == 1000 * power2::pow2(149)) by {
            assert(rounding::place(THOUSAND as int) == 135);
            power2::lemma_pow2_adds(14, 135);
            power2::lemma2_to64();
            mul::lemma_mul_is_associative(1000, 0x4000, power2::pow2(135) as int);
        }
        rounding::lemma_exact(1, THOUSAND as int);
    }
    single::lemma_rounded_fits(width.product(Single::of_bits(THOUSAND)));
    single::lemma_rounded_fits(height.product(Single::of_bits(THOUSAND)));
}

/// The viewport of a page that is not turned by a quarter is as wide and as
/// high as the view box, as closely as numbers go.
pub proof fn lemma_viewport_has_the_size_of_the_box(page: Page, view_box: RectF)
    requires
        view_box.is_finite(),
        page.rotation != 1,
        page.rotation != 3,
    ensures
        page.viewport_size(view_box).0.is_closest(
            view_box.right.units() - view_box.left.units(),
            1,
        ),
        page.viewport_size(view_box).1.is_closest(
            view_box.top.units() - view_box.bottom.units(),
            1,
        ),
{
    single::lemma_difference_is_closest(view_box.right, view_box.left);
    single::lemma_difference_is_closest(view_box.top, view_box.bottom);
}

/// A page is rendered in the size that it is shown in: pages of the same
/// width and height are rendered alike, whatever their rotation and boxes,
/// and pages with the two exchanged in bitmaps with the two exchanged.
pub proof fn lemma_rendering_follows_the_size(page: Page, other: Page, dpi: Single)
    ensures
        page.width == other.width && page.height == other.height ==> page.rendering(dpi)
            == other.rendering(dpi),
        page.width == other.height && page.height == other.width ==> {
            &&& page.rendering(dpi).width == other.rendering(dpi).height
            &&& page.rendering(dpi).height == other.rendering(dpi).width
        },
{
}

/// A page is rendered on white, from the origin, without a further turn, with
/// its annotations and as for print; and at 72 DPI in its own size, as closely
/// as whole pixels go.
pub proof fn lemma_rendering_at_page_size(page: Page, dpi: Single)
    requires
        page.width.is_finite(),
        page.height.is_finite(),
    ensures
        ({
            let request = page.rendering(dpi);
            let at_size = page.rendering(Single::of_bits(POINTS_PER_INCH));
            &&& request.background == 0xffff_ffff
            &&& request.start_x == 0 && request.start_y == 0 && request.rotate == 0
            &&& request.flags == 1 + 2048
            &&& at_size.width == page.width.rounded()
            &&& at_size.height == page.height.rounded()
        }),
{
    lemma_render_at_page_size(page.width);
    lemma_render_at_page_size(page.height);
    single::lemma_rounded_fits(page.width);
    single::lemma_rounded_fits(page.height);
}

/// A bitmap is as many pixels wide and high as the page's size times the
/// resolution in parts of 72.
pub proof fn lemma_rendering_is_scaled(page: Page, dpi: Single)
    ensures
        ({
            let scale = dpi.quotient(Single::of_bits(POINTS_PER_INCH));
            &&& page.rendering(dpi).width == page.width.product(scale).rounded()
            &&& page.rendering(dpi).height == page.height.product(scale).rounded()
            &&& dpi.is_finite() ==> scale.is_closest(dpi.units(), 72)
        }),
{
    let inch = Single::of_bits(POINTS_PER_INCH);
    let scale = dpi.quotient(inch);
    single::lemma_rounded_fits(page.width.product(scale));
    single::lemma_rounded_fits(page.height.product(scale));
    if dpi.is_finite() {
        let one = power2::pow2(149) as int;
        power2::lemma_pow2_pos(149);
        single::lemma_quotient_is_closest(dpi, inch);
        assert(inch.units() == 72 * one) by {
            assert(rounding::place(POINTS_PER_INCH as int) == 132);
            power2::lemma_pow2_adds(17, 132);
            power2::lemma2_to64();
            mul::lemma_mul_is_associative(72, 0x2_0000, power2::pow2(132) as int);
        }
        single::lemma_closest_reduced(scale, dpi.units(), 72, one);
    }
}

/// An image of a page whose bounds can be read has its box in the result,
/// behind those of the objects before it, if its width and its height are at
/// least the least size, and one of them is not above the page's times the
/// coverage.
pub proof fn lemma_page_images_are_boxed(
    page: Page,
    min_size_pt: Single,
    max_page_coverage: Single,
    at: int,
)
    requires
        0 <= at < page.objects@.len(),
        page.objects@[at] is Some,
        page.objects@[at]->0.kind == 3,
        page.objects@[at]->0.bounds.ok != 0,
        ({
            let limits = page.limits(min_size_pt, max_page_coverage);
            let bounds = limits.in_viewport(page.objects@[at]->0.bounds.value);
            &&& !bounds.width.lt(min_size_pt) && !bounds.height.lt(min_size_pt)
            &&& !page.width.product(max_page_coverage).lt(bounds.width)
                || !page.height.product(max_page_coverage).lt(bounds.height)
        }),
    ensures
        ({
            let limits = page.limits(min_size_pt, max_page_coverage);
            let boxes = page.images(min_size_pt, max_page_coverage);
            let before = object::image_boxes(page.objects@.take(at), limits).len() as int;
            &&& before < boxes.len()
            &&& boxes[before] == limits.in_viewport(page.objects@[at]->0.bounds.value)
        }),
{
    object::lemma_image_is_boxed(
        page.objects@,
        page.limits(min_size_pt, max_page_coverage),
        at,
    );
}

/// A filled path at the top of a page has its box in the result, behind those
/// of what comes before it, under the same conditions on its size.
pub proof fn lemma_page_filled_paths_are_boxed(
    page: Page,
    min_size_pt: Single,
    max_page_coverage: Single,
    at: int,
)
    requires
        0 <= at < page.objects@.len(),
        page.objects@[at] is Some,
        page.objects@[at]->0.kind == 2,
        filled::has_ink(page.objects@[at]->0),
        ({
            let limits = page.limits(min_size_pt, max_page_coverage);
            let bounds = limits.in_viewport(page.objects@[at]->0.bounds.value);
            &&& !bounds.width.lt(min_size_pt) && !bounds.height.lt(min_size_pt)
            &&& !page.width.product(max_page_coverage).lt(bounds.width)
                || !page.height.product(max_page_coverage).lt(bounds.height)
        }),
    ensures
        ({
            let limits = page.limits(min_size_pt, max_page_coverage);
            let boxes = page.filled_paths(min_size_pt, max_page_coverage);
            let before = filled::filled_among(
                page.objects@.take(at),
                None,
                limits,
                0,
            ).len() as int;
            &&& before < boxes.len()
            &&& boxes[before] == limits.in_viewport(page.objects@[at]->0.bounds.value)
        }),
{
    filled::lemma_filled_path_is_found(
        page.objects@,
        None,
        page.limits(min_size_pt, max_page_coverage),
        0,
        at,
    );
}

/// Every box of an image or of a filled path of a page is at least of the least
/// size, and not above the coverage both in width and in height.
pub proof fn lemma_page_boxes_fit(
    page: Page,
    min_size_pt: Single,
    max_page_coverage: Single,
    bounds: ImageBounds,
)
    requires
        page.images(min_size_pt, max_page_coverage).contains(bounds) || page.filled_paths(
            min_size_pt,
            max_page_coverage,
        ).contains(bounds),
    ensures
        !bounds.width.lt(min_size_pt),
        !bounds.height.lt(min_size_pt),
        !page.width.product(max_page_coverage).lt(bounds.width)
            || !page.height.product(max_page_coverage).lt(bounds.height),
{
    let limits = page.limits(min_size_pt, max_page_coverage);
    object::lemma_image_boxes_within_limits(page.objects@, limits);
    filled::lemma_filled_within_limits(page.objects@, None, limits, 0);
}

/// A kept segment of a path at the top of a page lies, by finite numbers, where
/// its point comes by the path's own matrix and then by the transform to the
/// viewport.
pub proof fn lemma_page_segments_are_carried(
    page: Page,
    transform: ViewportTransform,
    object: PageObject,
    at: int,
)
    requires
        page.objects@ == seq![Some(object)],
        object.kind == 2,
        object.bounds.ok != 0,
        object.matrix.value.is_finite(),
        0 <= at < object.segments@.len(),
        path::is_kept(object.segments@[at]),
    ensures
        ({
            let raw = object.segments@[at]->0;
            let paths = page.paths(transform);
            let before = path::kept_count(object.segments@.take(at)) as int;
            let own = object.matrix.value.image(raw.point.value.x, raw.point.value.y);
            let viewport = transform.image(own.0, own.1);
            &&& paths.len() == 1
            &&& before < paths[0].segments.len()
            &&& paths[0].segments[before].x.same_number(viewport.0)
            &&& paths[0].segments[before].y.same_number(viewport.1)
        }),
{
    let unit = Matrix::unit();
    let own = object.matrix.value;
    let raw = object.segments@[at]->0;
    let (x, y) = (raw.point.value.x, raw.point.value.y);
    path::lemma_paths_among_one(Some(object), unit, transform, 0);
    path::lemma_segments_are_kept_in_order(object.segments@, unit.after(own), transform, at);
    geometry::lemma_identity_is_neutral(own);
    geometry::lemma_image_same(unit.after(own), own, x, y);
    geometry::lemma_viewport_image_same(transform, unit.after(own).image(x, y), own.image(x, y));
}

/// A box is asked for by two opposite corners, and a transform by the origin
/// and the points one to the right of it and one above it, all on the same
/// device, however the page is turned.
pub proof fn lemma_requests_are_for_the_corners(page: Page, view_box: RectF, page_bounds: RectF)
    ensures
        ({
            let (low, high) = page.corner_requests(view_box, page_bounds);
            let (origin, unit_x, unit_y) = page.probe_requests(view_box);
            let one = Single::of_int(1);
            &&& (low.page_x, low.page_y) == (page_bounds.left, page_bounds.bottom)
            &&& (high.page_x, high.page_y) == (page_bounds.right, page_bounds.top)
            &&& origin.page_x.bits == 0 && origin.page_y.bits == 0
            &&& unit_x.page_x == one && unit_x.page_y.bits == 0
            &&& unit_y.page_x.bits == 0 && unit_y.page_y == one
            &&& forall|x: Single, y: Single|
                {
                    let request = #[trigger] page.request_for(view_box, x, y);
                    &&& request.size_x == low.size_x == high.size_x == origin.size_x
                        == unit_x.size_x == unit_y.size_x
                    &&& request.size_y == low.size_y == high.size_y == origin.size_y
                        == unit_x.size_y == unit_y.size_y
                }
        }),
{
    assert(Single::of_int(1) == Single::of_bits(ONE)) by {
        reveal(Single::of_int);
        single::lemma_magnitude_of_one();
        rounding::lemma_exact(1, ONE as int);
    }
}

/// A box in the viewport reaches from corner to corner: its sides are the ends
/// of the ranges of the coordinates at which its two corners were found.
pub proof fn lemma_found_box_reaches_its_corners(
    lower_left: DevicePoint,
    upper_right: DevicePoint,
)
    ensures
        ({
            let rect = Page::found_box(lower_left, upper_right);
            let (x1, y1) = lower_left.in_viewport();
            let (x2, y2) = upper_right.in_viewport();
            &&& single::are_ends(rect.left, rect.right, seq![x1, x2])
            &&& single::are_ends(rect.top, rect.bottom, seq![y1, y2])
        }),
{
    geometry::lemma_span_reaches_its_corners(lower_left.in_viewport(), upper_right.in_viewport());
}

} // verus!
