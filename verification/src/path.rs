//! Vector paths in viewport space, through nested forms.

use crate::color;
use crate::color::{read_color, Answer, Color};
use crate::geometry;
use crate::geometry::{compose_matrix, Matrix, RectF, ViewportTransform};
use crate::object;
use crate::object::{
    DrawMode, PageObject, RawSegment, FILL_NONE, FORM_OBJECT, PATH_OBJECT,
};
use crate::single;
use crate::single::Single;
use vstd::prelude::*;

verus! {

/// How many forms may be nested around a path.
pub const MAX_PATH_DEPTH: u32 = 6;

/// The engine's code of a segment that draws a line.
pub const LINE_TO: i32 = 0;

/// The engine's code of a segment that draws a curve.
pub const BEZIER_TO: i32 = 1;

/// The engine's code of a segment that starts a subpath.
pub const MOVE_TO: i32 = 2;

#[derive(Clone, Copy, Debug, PartialEq, Eq, Structural)]
pub enum SegmentKind {
    MoveTo,
    LineTo,
    BezierTo,
}

/// One segment of a vector path. Coordinates are in viewport space (top-left
/// origin, 72 DPI), with the object's matrix applied.
#[derive(Clone, Copy, Debug, PartialEq, Eq, Structural)]
pub struct PathSegment {
    pub kind: SegmentKind,
    pub x: Single,
    pub y: Single,
    /// Whether this segment closes the current subpath.
    pub close: bool,
}

/// A vector path of a page.
#[derive(Clone, Debug)]
pub struct PathObject {
    /// The object's box in viewport space.
    pub bbox: RectF,
    pub stroke_color: Option<Color>,
    pub fill_color: Option<Color>,
    pub stroke_width: Single,
    /// True when the path is stroked per its draw mode.
    pub is_stroked: bool,
    /// True when the path is filled per its draw mode.
    pub is_filled: bool,
    pub segments: Vec<PathSegment>,
}

/// What a path object holds.
pub struct PathView {
    pub bbox: RectF,
    pub stroke_color: Option<Color>,
    pub fill_color: Option<Color>,
    pub stroke_width: Single,
    pub is_stroked: bool,
    pub is_filled: bool,
    pub segments: Seq<PathSegment>,
}

impl View for PathObject {
    type V = PathView;

    open spec fn view(&self) -> PathView {
        PathView {
            bbox: self.bbox,
            stroke_color: self.stroke_color,
            fill_color: self.fill_color,
            stroke_width: self.stroke_width,
            is_stroked: self.is_stroked,
            is_filled: self.is_filled,
            segments: self.segments@,
        }
    }
}

/// What path objects hold.
pub open spec fn views(paths: Seq<PathObject>) -> Seq<PathView> {
    paths.map_values(|path: PathObject| path@)
}

/// The kind of segment that a code of the engine stands for.
pub open spec fn kind_of(code: i32) -> Option<SegmentKind> {
    if code == MOVE_TO {
        Some(SegmentKind::MoveTo)
    } else if code == LINE_TO {
        Some(SegmentKind::LineTo)
    } else if code == BEZIER_TO {
        Some(SegmentKind::BezierTo)
    } else {
        None
    }
}

/// A segment in viewport space, if it can be read and is of a known kind.
pub open spec fn segment_of(
    raw: Option<RawSegment>,
    matrix: Matrix,
    transform: ViewportTransform,
) -> Option<PathSegment> {
    match raw {
        Some(segment) => match kind_of(segment.kind) {
            Some(kind) if segment.point.given() => {
                let page = matrix.image(segment.point.value.x, segment.point.value.y);
                let (x, y) = transform.image(page.0, page.1);
                Some(PathSegment { kind, x, y, close: segment.close != 0 })
            },
            _ => None,
        },
        None => None,
    }
}

/// The segments of a path in viewport space, in their order.
pub open spec fn segments_of(
    raw: Seq<Option<RawSegment>>,
    matrix: Matrix,
    transform: ViewportTransform,
) -> Seq<PathSegment>
    decreases raw.len(),
{
    if raw.len() == 0 {
        Seq::empty()
    } else {
        let before = segments_of(raw.drop_last(), matrix, transform);
        match segment_of(raw.last(), matrix, transform) {
            Some(segment) => before.push(segment),
            None => before,
        }
    }
}

/// A path object in viewport space, if its bounds can be read. `parent` maps
/// the content space that holds it into page space.
pub open spec fn path_of(
    object: PageObject,
    parent: Matrix,
    transform: ViewportTransform,
) -> Option<PathView> {
    if object.bounds.given() {
        let mode = object.draw_mode;
        Some(
            PathView {
                bbox: transform.image_rect(parent.image_box(object.bounds.value)),
                stroke_color: color::color_of(object.stroke_color),
                fill_color: color::color_of(object.fill_color),
                stroke_width: object.stroke_width,
                is_stroked: mode.given() && mode.value.stroke != 0,
                is_filled: mode.given() && mode.value.fill_mode != FILL_NONE,
                segments: segments_of(
                    object.segments@,
                    parent.after(object.matrix.value),
                    transform,
                ),
            },
        )
    } else {
        None
    }
}

/// The paths that an object holds: its own if it is a path, and those of its
/// objects if it is a form that is not nested too deep.
pub open spec fn paths_under(
    object: PageObject,
    parent: Matrix,
    transform: ViewportTransform,
    depth: nat,
) -> Seq<PathView>
    decreases object,
{
    if object.kind == FORM_OBJECT {
        if depth >= MAX_PATH_DEPTH {
            Seq::empty()
        } else {
            paths_among(
                object.children@,
                parent.after(object.matrix.value),
                transform,
                depth + 1,
            )
        }
    } else if object.kind == PATH_OBJECT {
        match path_of(object, parent, transform) {
            Some(path) => seq![path],
            None => Seq::empty(),
        }
    } else {
        Seq::empty()
    }
}

/// The paths that objects hold, in the order of the objects.
pub open spec fn paths_among(
    entries: Seq<Option<PageObject>>,
    parent: Matrix,
    transform: ViewportTransform,
    depth: nat,
) -> Seq<PathView>
    decreases entries,
{
    if entries.len() == 0 {
        Seq::empty()
    } else {
        let before = paths_among(entries.drop_last(), parent, transform, depth);
        match entries.last() {
            Some(object) => before + paths_under(object, parent, transform, depth),
            None => before,
        }
    }
}

/// The kind of segment that a code of the engine stands for.
pub fn segment_kind(code: i32) -> (kind: Option<SegmentKind>)
    ensures
        kind == kind_of(code),
{
    if code == MOVE_TO {
        Some(SegmentKind::MoveTo)
    } else if code == LINE_TO {
        Some(SegmentKind::LineTo)
    } else if code == BEZIER_TO {
        Some(SegmentKind::BezierTo)
    } else {
        None
    }
}

/// Whether a path is filled, and whether it is stroked.
fn paint(mode: &Answer<DrawMode>) -> (painted: (bool, bool))
    ensures
        painted.0 == (mode.given() && mode.value.fill_mode != FILL_NONE),
        painted.1 == (mode.given() && mode.value.stroke != 0),
{
    if mode.ok != 0 {
        (mode.value.fill_mode != FILL_NONE, mode.value.stroke != 0)
    } else {
        (false, false)
    }
}

/// A segment in viewport space.
fn read_segment(raw: &Option<RawSegment>, matrix: &Matrix, transform: &ViewportTransform) -> (read:
    Option<PathSegment>)
    ensures
        read == segment_of(*raw, *matrix, *transform),
{
    match raw {
        Some(segment) => {
            if segment.point.ok == 0 {
                return None;
            }
            match segment_kind(segment.kind) {
                Some(kind) => {
                    let (page_x, page_y) = matrix.apply(
                        segment.point.value.x,
                        segment.point.value.y,
                    );
                    let (x, y) = transform.transform_point(page_x, page_y);
                    Some(PathSegment { kind, x, y, close: segment.close != 0 })
                },
                None => None,
            }
        },
        None => None,
    }
}

/// The segments of a path in viewport space.
fn read_segments(
    raw: &Vec<Option<RawSegment>>,
    matrix: &Matrix,
    transform: &ViewportTransform,
) -> (segments: Vec<PathSegment>)
    ensures
        segments@ == segments_of(raw@, *matrix, *transform),
{
    let mut segments: Vec<PathSegment> = Vec::new();
    for i in 0..raw.len()
        invariant
            segments@ == segments_of(raw@.take(i as int), *matrix, *transform),
    {
        proof {
            assert(raw@.take(i + 1).drop_last() =~= raw@.take(i as int));
        }
        if let Some(segment) = read_segment(&raw[i], matrix, transform) {
            segments.push(segment);
        }
    }
    proof {
        assert(raw@.take(raw@.len() as int) =~= raw@);
    }
    segments
}

/// A path object in viewport space.
fn read_path(object: &PageObject, parent: &Matrix, transform: &ViewportTransform) -> (path: Option<
    PathObject,
>)
    ensures
        path is Some <==> path_of(*object, *parent, *transform) is Some,
        path matches Some(found) ==> Some(found@) == path_of(*object, *parent, *transform),
{
    if object.bounds.ok == 0 {
        return None;
    }
    // The bounds are reported in the content space that holds the object,
    // with its own matrix applied and those of the forms around it not.
    let bbox: RectF = transform.transform_bounds(&parent.apply_to_box(&object.bounds.value));
    let (is_filled, is_stroked) = paint(&object.draw_mode);
    let matrix: Matrix = compose_matrix(parent, &object.matrix.value);
    Some(
        PathObject {
            bbox,
            stroke_color: read_color(&object.stroke_color),
            fill_color: read_color(&object.fill_color),
            stroke_width: object.stroke_width,
            is_stroked,
            is_filled,
            segments: read_segments(&object.segments, &matrix, transform),
        },
    )
}

/// Collect the paths that an object holds. `parent` maps the content space
/// that holds the object into page space.
pub fn collect_path_objects(
    object: &PageObject,
    parent: &Matrix,
    transform: &ViewportTransform,
    depth: u32,
    out: &mut Vec<PathObject>,
)
    ensures
        views(final(out)@) == views(old(out)@) + paths_under(
            *object,
            *parent,
            *transform,
            depth as nat,
        ),
    decreases object,
{
    if object.kind == FORM_OBJECT {
        if depth >= MAX_PATH_DEPTH {
            return;
        }
        let combined: Matrix = compose_matrix(parent, &object.matrix.value);
        collect_paths_among(&object.children, &combined, transform, depth + 1, out);
        return;
    }
    if object.kind != PATH_OBJECT {
        return;
    }
    if let Some(path) = read_path(object, parent, transform) {
        out.push(path);
        proof {
            assert(views(out@) =~= views(old(out)@).push(path@));
        }
    }
}

/// Collect the paths that objects hold.
pub fn collect_paths_among(
    entries: &Vec<Option<PageObject>>,
    parent: &Matrix,
    transform: &ViewportTransform,
    depth: u32,
    out: &mut Vec<PathObject>,
)
    ensures
        views(final(out)@) == views(old(out)@) + paths_among(
            entries@,
            *parent,
            *transform,
            depth as nat,
        ),
    decreases entries,
{
    for i in 0..entries.len()
        invariant
            views(out@) == views(old(out)@) + paths_among(
                entries@.take(i as int),
                *parent,
                *transform,
                depth as nat,
            ),
    {
        let ghost before = paths_among(entries@.take(i as int), *parent, *transform, depth as nat);
        proof {
            let next = entries@.take(i + 1);
            assert(next.drop_last() =~= entries@.take(i as int));
            assert(next.last() == entries@[i as int]);
        }
        if let Some(object) = &entries[i] {
            collect_path_objects(object, parent, transform, depth, out);
            proof {
                let own = paths_under(*object, *parent, *transform, depth as nat);
                assert((views(old(out)@) + before) + own =~= views(old(out)@) + (before + own));
            }
        }
    }
    proof {
        assert(entries@.take(entries@.len() as int) =~= entries@);
    }
}

/// The paths among objects are those among the first of them, followed by
/// those among the rest.
pub proof fn lemma_paths_concat(
    first: Seq<Option<PageObject>>,
    second: Seq<Option<PageObject>>,
    parent: Matrix,
    transform: ViewportTransform,
    depth: nat,
)
    ensures
        paths_among(first + second, parent, transform, depth) == paths_among(
            first,
            parent,
            transform,
            depth,
        ) + paths_among(second, parent, transform, depth),
    decreases second.len(),
{
    let before = paths_among(first, parent, transform, depth);
    if second.len() == 0 {
        assert(first + second =~= first);
        assert(before + paths_among(second, parent, transform, depth) =~= before);
    } else {
        lemma_paths_concat(first, second.drop_last(), parent, transform, depth);
        assert((first + second).drop_last() =~= first + second.drop_last());
        assert((first + second).last() == second.last());
        let rest = paths_among(second.drop_last(), parent, transform, depth);
        if let Some(object) = second.last() {
            let own = paths_under(object, parent, transform, depth);
            assert((before + rest) + own =~= before + (rest + own));
        }
    }
}

/// A path has no more segments than the engine reports.
pub proof fn lemma_segments_count(
    raw: Seq<Option<RawSegment>>,
    matrix: Matrix,
    transform: ViewportTransform,
)
    ensures
        segments_of(raw, matrix, transform).len() <= raw.len(),
    decreases raw.len(),
{
    if raw.len() > 0 {
        lemma_segments_count(raw.drop_last(), matrix, transform);
    }
}

/// What is nested deeper than the limit does not show in the paths under an
/// object.
pub proof fn lemma_paths_under_depth(
    first: PageObject,
    second: PageObject,
    parent: Matrix,
    transform: ViewportTransform,
    depth: nat,
    levels: nat,
)
    requires
        object::alike(Some(first), Some(second), levels),
        levels + depth >= MAX_PATH_DEPTH,
    ensures
        paths_under(first, parent, transform, depth) == paths_under(
            second,
            parent,
            transform,
            depth,
        ),
    decreases first,
{
    if first.kind == FORM_OBJECT && depth < MAX_PATH_DEPTH {
        lemma_paths_depth(
            first.children@,
            second.children@,
            parent.after(first.matrix.value),
            transform,
            depth + 1,
            (levels - 1) as nat,
        );
    }
}

/// What is nested deeper than the limit does not show in the paths among
/// objects.
pub proof fn lemma_paths_depth(
    first: Seq<Option<PageObject>>,
    second: Seq<Option<PageObject>>,
    parent: Matrix,
    transform: ViewportTransform,
    depth: nat,
    levels: nat,
)
    requires
        object::all_alike(first, second, levels),
        levels + depth >= MAX_PATH_DEPTH,
    ensures
        paths_among(first, parent, transform, depth) == paths_among(
            second,
            parent,
            transform,
            depth,
        ),
    decreases first,
{
    if first.len() > 0 {
        reveal_with_fuel(object::all_alike, 2);
        reveal_with_fuel(object::alike, 2);
        lemma_paths_depth(
            first.drop_last(),
            second.drop_last(),
            parent,
            transform,
            depth,
            levels,
        );
        if first.last() is Some {
            lemma_paths_under_depth(
                first.last()->0,
                second.last()->0,
                parent,
                transform,
                depth,
                levels,
            );
        }
    }
}

/// Whether a segment is kept: it is not null, its point can be read, and it is
/// a line, a curve or the start of a subpath.
pub open spec fn is_kept(raw: Option<RawSegment>) -> bool {
    raw matches Some(segment) && segment.point.ok != 0 && 0 <= segment.kind <= 2
}

/// How many segments are kept.
pub open spec fn kept_count(raw: Seq<Option<RawSegment>>) -> nat
    decreases raw.len(),
{
    if raw.len() == 0 {
        0
    } else {
        kept_count(raw.drop_last()) + if is_kept(raw.last()) {
            1nat
        } else {
            0
        }
    }
}

/// A line is coded as zero, a curve as one, and the start of a subpath as two;
/// other codes stand for nothing.
pub proof fn lemma_segment_codes(code: i32)
    ensures
        kind_of(code) == Some(SegmentKind::LineTo) <==> code == 0,
        kind_of(code) == Some(SegmentKind::BezierTo) <==> code == 1,
        kind_of(code) == Some(SegmentKind::MoveTo) <==> code == 2,
        kind_of(code) is None <==> code < 0 || code > 2,
{
}

/// Exactly the segments that are kept are read, each of its own kind, closing
/// its subpath where the engine says anything but no, and at the point where
/// its image on the page is found in the viewport.
pub proof fn lemma_segment_is_read(
    raw: Option<RawSegment>,
    matrix: Matrix,
    transform: ViewportTransform,
)
    ensures
        segment_of(raw, matrix, transform) is Some <==> raw is Some && raw->0.point.ok != 0 && 0
            <= raw->0.kind <= 2,
        segment_of(raw, matrix, transform) matches Some(segment) ==> {
            let (page_x, page_y) = matrix.image(raw->0.point.value.x, raw->0.point.value.y);
            &&& segment.kind == SegmentKind::LineTo <==> raw->0.kind == 0
            &&& segment.kind == SegmentKind::BezierTo <==> raw->0.kind == 1
            &&& segment.kind == SegmentKind::MoveTo <==> raw->0.kind == 2
            &&& segment.close <==> raw->0.close != 0
            &&& (segment.x, segment.y) == transform.image(page_x, page_y)
        },
{
}

/// The segments of a path are those of its first segments, followed by those
/// of the rest.
pub proof fn lemma_segments_concat(
    first: Seq<Option<RawSegment>>,
    second: Seq<Option<RawSegment>>,
    matrix: Matrix,
    transform: ViewportTransform,
)
    ensures
        segments_of(first + second, matrix, transform) == segments_of(first, matrix, transform)
            + segments_of(second, matrix, transform),
    decreases second.len(),
{
    let before = segments_of(first, matrix, transform);
    if second.len() == 0 {
        assert(first + second =~= first);
        assert(before + segments_of(second, matrix, transform) =~= before);
    } else {
        lemma_segments_concat(first, second.drop_last(), matrix, transform);
        assert((first + second).drop_last() =~= first + second.drop_last());
        assert((first + second).last() == second.last());
        let rest = segments_of(second.drop_last(), matrix, transform);
        if let Some(segment) = segment_of(second.last(), matrix, transform) {
            assert((before + rest).push(segment) =~= before + rest.push(segment));
        }
    }
}

/// As many segments are read as are kept, and each that is kept is read behind
/// those that are kept before it.
pub proof fn lemma_segments_are_kept_in_order(
    raw: Seq<Option<RawSegment>>,
    matrix: Matrix,
    transform: ViewportTransform,
    at: int,
)
    requires
        0 <= at < raw.len(),
    ensures
        segments_of(raw, matrix, transform).len() == kept_count(raw),
        is_kept(raw[at]) ==> {
            let before = kept_count(raw.take(at)) as int;
            let segments = segments_of(raw, matrix, transform);
            &&& before < segments.len()
            &&& Some(segments[before]) == segment_of(raw[at], matrix, transform)
        },
{
    lemma_kept_count(raw, matrix, transform);
    lemma_kept_count(raw.take(at), matrix, transform);
    let one = seq![raw[at]];
    let rest = raw.skip(at + 1);
    assert(raw =~= raw.take(at) + (one + rest));
    lemma_segments_concat(raw.take(at), one + rest, matrix, transform);
    lemma_segments_concat(one, rest, matrix, transform);
    assert(one.drop_last() =~= Seq::<Option<RawSegment>>::empty());
    assert(one.last() == raw[at]);
    reveal_with_fuel(segments_of, 2);
}

/// As many segments are read as are kept.
proof fn lemma_kept_count(
    raw: Seq<Option<RawSegment>>,
    matrix: Matrix,
    transform: ViewportTransform,
)
    ensures
        segments_of(raw, matrix, transform).len() == kept_count(raw),
    decreases raw.len(),
{
    if raw.len() > 0 {
        lemma_kept_count(raw.drop_last(), matrix, transform);
    }
}

/// A path object is one path where its bounds can be read, and none where they
/// cannot. It is stroked and filled as a draw mode that can be read says, and
/// not at all where it cannot be read; its colours are those that can be read,
/// and its stroke is as wide as the engine says.
pub proof fn lemma_path_is_painted(
    object: PageObject,
    parent: Matrix,
    transform: ViewportTransform,
    depth: nat,
)
    requires
        object.kind == 2,
    ensures
        ({
            let paths = paths_under(object, parent, transform, depth);
            let mode = object.draw_mode;
            &&& object.bounds.ok == 0 ==> paths.len() == 0
            &&& object.bounds.ok != 0 ==> {
                &&& paths.len() == 1
                &&& paths[0].is_stroked <==> mode.ok != 0 && mode.value.stroke != 0
                &&& paths[0].is_filled <==> mode.ok != 0 && mode.value.fill_mode != 0
                &&& paths[0].stroke_width == object.stroke_width
                &&& paths[0].stroke_color is Some <==> object.stroke_color.ok != 0
                &&& paths[0].fill_color is Some <==> object.fill_color.ok != 0
                &&& paths[0].stroke_color matches Some(color) ==> {
                    &&& color.r == object.stroke_color.value.r % 256
                    &&& color.g == object.stroke_color.value.g % 256
                    &&& color.b == object.stroke_color.value.b % 256
                    &&& color.a == object.stroke_color.value.a % 256
                }
                &&& paths[0].fill_color matches Some(color) ==> {
                    &&& color.r == object.fill_color.value.r % 256
                    &&& color.g == object.fill_color.value.g % 256
                    &&& color.b == object.fill_color.value.b % 256
                    &&& color.a == object.fill_color.value.a % 256
                }
                &&& paths[0].segments.len() == kept_count(object.segments@)
            }
        }),
{
    lemma_kept_count(object.segments@, parent.after(object.matrix.value), transform);
}

/// The box of a path reaches, in the viewport, from the lower left to the
/// upper right corner of the box around its bounds' corners on the page. Its
/// own matrix has no part in it.
pub proof fn lemma_path_box_reaches_its_corners(
    object: PageObject,
    parent: Matrix,
    transform: ViewportTransform,
    depth: nat,
)
    requires
        object.kind == 2,
        object.bounds.ok != 0,
    ensures
        ({
            let bounds = object.bounds.value;
            let bbox = paths_under(object, parent, transform, depth)[0].bbox;
            let area = parent.image_box(bounds);
            let (x1, y1) = parent.image(bounds.left, bounds.bottom);
            let (x2, y2) = parent.image(bounds.left, bounds.top);
            let (x3, y3) = parent.image(bounds.right, bounds.bottom);
            let (x4, y4) = parent.image(bounds.right, bounds.top);
            let (u1, v1) = transform.image(area.left, area.bottom);
            let (u2, v2) = transform.image(area.right, area.top);
            &&& single::are_ends(area.left, area.right, seq![x1, x2, x3, x4])
            &&& single::are_ends(area.bottom, area.top, seq![y1, y2, y3, y4])
            &&& single::are_ends(bbox.left, bbox.right, seq![u1, u2])
            &&& single::are_ends(bbox.top, bbox.bottom, seq![v1, v2])
        }),
{
    let area = parent.image_box(object.bounds.value);
    geometry::lemma_image_box_reaches_its_corners(parent, object.bounds.value);
    geometry::lemma_transformed_rect_reaches_its_corners(transform, area);
}

/// Where nothing is rounded, each segment of a path that is kept lies where
/// its point comes when the path's own matrix acts on it first, then those of
/// the forms around it, and then the transform to the viewport.
pub proof fn lemma_segments_are_carried_in_turn(
    object: PageObject,
    parent: Matrix,
    transform: ViewportTransform,
    depth: nat,
    at: int,
)
    requires
        object.kind == 2,
        object.bounds.ok != 0,
        0 <= at < object.segments@.len(),
        is_kept(object.segments@[at]),
        geometry::applies_exactly(
            parent,
            object.matrix.value,
            object.segments@[at]->0.point.value.x,
            object.segments@[at]->0.point.value.y,
        ),
    ensures
        ({
            let raw = object.segments@[at]->0;
            let segments = paths_under(object, parent, transform, depth)[0].segments;
            let before = kept_count(object.segments@.take(at)) as int;
            let own = object.matrix.value.image(raw.point.value.x, raw.point.value.y);
            let page = parent.image(own.0, own.1);
            let viewport = transform.image(page.0, page.1);
            &&& before < segments.len()
            &&& segments[before].x.same_number(viewport.0)
            &&& segments[before].y.same_number(viewport.1)
            &&& segments[before].close <==> raw.close != 0
            &&& Some(segments[before].kind) == kind_of(raw.kind)
        }),
{
    let raw = object.segments@[at]->0;
    let (x, y) = (raw.point.value.x, raw.point.value.y);
    let matrix = parent.after(object.matrix.value);
    let own = object.matrix.value.image(x, y);
    lemma_segments_are_kept_in_order(object.segments@, matrix, transform, at);
    geometry::lemma_composition_applies_in_turn(parent, object.matrix.value, x, y);
    geometry::lemma_viewport_image_same(
        transform,
        matrix.image(x, y),
        parent.image(own.0, own.1),
    );
}

/// A path's own matrix, rounded or not, is composed with those around it
/// before it meets a point: the segments are the images, under the transform
/// to the viewport, of their images under a matrix whose columns are the
/// images of the own matrix's columns.
pub proof fn lemma_segments_meet_the_composition(
    object: PageObject,
    parent: Matrix,
    transform: ViewportTransform,
    depth: nat,
    at: int,
)
    requires
        object.kind == 2,
        object.bounds.ok != 0,
        0 <= at < object.segments@.len(),
        is_kept(object.segments@[at]),
    ensures
        ({
            let own = object.matrix.value;
            let raw = object.segments@[at]->0;
            let segments = paths_under(object, parent, transform, depth)[0].segments;
            let before = kept_count(object.segments@.take(at)) as int;
            let across = parent.linear().image(own.a, own.b);
            let up = parent.linear().image(own.c, own.d);
            let offset = parent.image(own.e, own.f);
            let both = Matrix {
                a: across.0,
                b: across.1,
                c: up.0,
                d: up.1,
                e: offset.0,
                f: offset.1,
            };
            let page = both.image(raw.point.value.x, raw.point.value.y);
            let viewport = transform.image(page.0, page.1);
            &&& before < segments.len()
            &&& segments[before].x.same_number(viewport.0)
            &&& segments[before].y.same_number(viewport.1)
        }),
{
    let own = object.matrix.value;
    let raw = object.segments@[at]->0;
    let (x, y) = (raw.point.value.x, raw.point.value.y);
    let matrix = parent.after(own);
    let across = parent.linear().image(own.a, own.b);
    let up = parent.linear().image(own.c, own.d);
    let offset = parent.image(own.e, own.f);
    let both = Matrix {
        a: across.0,
        b: across.1,
        c: up.0,
        d: up.1,
        e: offset.0,
        f: offset.1,
    };
    lemma_segments_are_kept_in_order(object.segments@, matrix, transform, at);
    geometry::lemma_composition_columns(parent, own);
    geometry::lemma_image_same(matrix, both, x, y);
    geometry::lemma_viewport_image_same(transform, matrix.image(x, y), both.image(x, y));
}

/// A form holds the paths of its objects, one level deeper and through a
/// matrix that acts as its own followed by those around it; beyond the limit
/// of nesting it holds none. Objects that are neither forms nor paths hold
/// none.
pub proof fn lemma_forms_are_opened(
    object: PageObject,
    parent: Matrix,
    transform: ViewportTransform,
    depth: nat,
    x: Single,
    y: Single,
)
    ensures
        object.kind == 5 && depth >= 6 ==> paths_under(
            object,
            parent,
            transform,
            depth,
        ).len() == 0,
        object.kind != 5 && object.kind != 2 ==> paths_under(
            object,
            parent,
            transform,
            depth,
        ).len() == 0,
        object.kind == 5 && depth < 6 ==> {
            let both = parent.after(object.matrix.value);
            &&& paths_under(object, parent, transform, depth) == paths_among(
                object.children@,
                both,
                transform,
                depth + 1,
            )
            &&& geometry::applies_exactly(parent, object.matrix.value, x, y) ==> {
                let (u, v) = object.matrix.value.image(x, y);
                &&& both.image(x, y).0.same_value(parent.image(u, v).0)
                &&& both.image(x, y).1.same_value(parent.image(u, v).1)
            }
        },
{
    if geometry::applies_exactly(parent, object.matrix.value, x, y) {
        geometry::lemma_composition_applies_in_turn(parent, object.matrix.value, x, y);
    }
}

/// Paths are collected entry by entry: none from a null entry, and from an
/// object those that it holds.
pub proof fn lemma_paths_among_one(
    entry: Option<PageObject>,
    parent: Matrix,
    transform: ViewportTransform,
    depth: nat,
)
    ensures
        paths_among(Seq::empty(), parent, transform, depth).len() == 0,
        entry is None ==> paths_among(seq![entry], parent, transform, depth).len() == 0,
        entry matches Some(object) ==> paths_among(seq![entry], parent, transform, depth)
            == paths_under(object, parent, transform, depth),
{
    let one = seq![entry];
    let none = Seq::<Option<PageObject>>::empty();
    assert(one.drop_last() =~= none);
    assert(one.last() == entry);
    assert(paths_among(none, parent, transform, depth) =~= Seq::empty());
    if let Some(object) = entry {
        let own = paths_under(object, parent, transform, depth);
        assert(Seq::<PathView>::empty() + own =~= own);
    }
}

/// The view of paths leaves nothing out.
pub proof fn lemma_views_are_faithful(paths: Seq<PathObject>, at: int)
    requires
        0 <= at < paths.len(),
    ensures
        views(paths).len() == paths.len(),
        ({
            let view = views(paths)[at];
            &&& view.bbox == paths[at].bbox
            &&& view.stroke_color == paths[at].stroke_color
            &&& view.fill_color == paths[at].fill_color
            &&& view.stroke_width == paths[at].stroke_width
            &&& view.is_stroked == paths[at].is_stroked
            &&& view.is_filled == paths[at].is_filled
            &&& view.segments == paths[at].segments@
        }),
{
}

} // verus!
