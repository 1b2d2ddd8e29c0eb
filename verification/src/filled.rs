//! Boxes of filled paths, through nested forms.

use crate::color;
use crate::color::{is_ink, Answer};
use crate::geometry;
use crate::geometry::{compose_matrix, Matrix, RectF};
use crate::object;
use crate::object::{
    DrawMode, ImageBounds, PageObject, SizeLimits, FILL_NONE, FORM_OBJECT, PATH_OBJECT,
};
use crate::single;
use crate::single::Single;
use vstd::prelude::*;

verus! {

/// How many forms may be nested around a filled path.
pub const MAX_FILLED_DEPTH: u32 = 4;

/// The transform from inside a form to the page, where `None` stands for a
/// space that is the page's own.
pub open spec fn within_form(transform: Option<Matrix>, matrix: Answer<Matrix>) -> Option<Matrix> {
    match transform {
        Some(outer) => Some(
            if matrix.given() {
                outer.after(matrix.value)
            } else {
                outer
            },
        ),
        None => if matrix.given() {
            Some(matrix.value)
        } else {
            None
        },
    }
}

/// A box carried into page space.
pub open spec fn in_page(transform: Option<Matrix>, area: RectF) -> RectF {
    match transform {
        Some(matrix) => matrix.image_box(area),
        None => area,
    }
}

/// Whether a path is filled.
pub open spec fn fills(mode: Answer<DrawMode>) -> bool {
    mode.given() && mode.value.fill_mode != FILL_NONE
}

/// The box of a path object, if it is filled with what may be ink, and of a
/// size within the limits.
pub open spec fn filled_box(
    object: PageObject,
    transform: Option<Matrix>,
    limits: SizeLimits,
) -> Option<ImageBounds> {
    if fills(object.draw_mode) && color::inked(object.fill_color) && object.bounds.given() {
        limits.placed(in_page(transform, object.bounds.value))
    } else {
        None
    }
}

/// The boxes of the filled paths that an object holds: its own if it is a
/// path, and those of its objects if it is a form that is not nested too
/// deep.
pub open spec fn filled_under(
    object: PageObject,
    transform: Option<Matrix>,
    limits: SizeLimits,
    depth: nat,
) -> Seq<ImageBounds>
    decreases object,
{
    if object.kind == FORM_OBJECT {
        if depth >= MAX_FILLED_DEPTH {
            Seq::empty()
        } else {
            filled_among(
                object.children@,
                within_form(transform, object.matrix),
                limits,
                depth + 1,
            )
        }
    } else if object.kind == PATH_OBJECT {
        match filled_box(object, transform, limits) {
            Some(bounds) => seq![bounds],
            None => Seq::empty(),
        }
    } else {
        Seq::empty()
    }
}

/// The boxes of the filled paths that objects hold, in the order of the
/// objects.
pub open spec fn filled_among(
    entries: Seq<Option<PageObject>>,
    transform: Option<Matrix>,
    limits: SizeLimits,
    depth: nat,
) -> Seq<ImageBounds>
    decreases entries,
{
    if entries.len() == 0 {
        Seq::empty()
    } else {
        let before = filled_among(entries.drop_last(), transform, limits, depth);
        match entries.last() {
            Some(object) => before + filled_under(object, transform, limits, depth),
            None => before,
        }
    }
}

/// The box of a path object, unless it is not filled, is filled with a light
/// or transparent shade, or has a size beyond the limits.
fn filled_path(object: &PageObject, transform: &Option<Matrix>, limits: &SizeLimits) -> (bounds:
    Option<ImageBounds>)
    ensures
        bounds == filled_box(*object, *transform, *limits),
{
    // Only filled paths can be glyph outlines; stroke-only paths are table
    // borders, rules and underlines.
    if object.draw_mode.ok == 0 || object.draw_mode.value.fill_mode == FILL_NONE {
        return None;
    }
    // Glyph outlines are drawn in ink-like colours, while table striping and
    // section shading use light ones.
    if !is_ink(&object.fill_color) {
        return None;
    }
    if object.bounds.ok == 0 {
        return None;
    }
    let area: RectF = match transform {
        Some(matrix) => matrix.apply_to_box(&object.bounds.value),
        None => object.bounds.value,
    };
    limits.place(&area)
}

/// The transform from inside a form to the page.
fn form_transform(transform: &Option<Matrix>, matrix: &Answer<Matrix>) -> (combined: Option<
    Matrix,
>)
    ensures
        combined == within_form(*transform, *matrix),
{
    match transform {
        Some(outer) => if matrix.ok != 0 {
            Some(compose_matrix(outer, &matrix.value))
        } else {
            Some(*outer)
        },
        None => if matrix.ok != 0 {
            Some(matrix.value)
        } else {
            None
        },
    }
}

/// Collect the boxes of the filled paths that an object holds.
pub fn collect_filled_paths(
    object: &PageObject,
    transform: &Option<Matrix>,
    limits: &SizeLimits,
    depth: u32,
    out: &mut Vec<ImageBounds>,
)
    ensures
        final(out)@ == old(out)@ + filled_under(*object, *transform, *limits, depth as nat),
    decreases object,
{
    if object.kind == FORM_OBJECT {
        if depth >= MAX_FILLED_DEPTH {
            return;
        }
        // Child bounds are reported in the form's coordinate space.
        let combined: Option<Matrix> = form_transform(transform, &object.matrix);
        collect_filled_among(&object.children, &combined, limits, depth + 1, out);
        return;
    }
    if object.kind != PATH_OBJECT {
        return;
    }
    if let Some(bounds) = filled_path(object, transform, limits) {
        out.push(bounds);
    }
}

/// Collect the boxes of the filled paths that objects hold.
pub fn collect_filled_among(
    entries: &Vec<Option<PageObject>>,
    transform: &Option<Matrix>,
    limits: &SizeLimits,
    depth: u32,
    out: &mut Vec<ImageBounds>,
)
    ensures
        final(out)@ == old(out)@ + filled_among(entries@, *transform, *limits, depth as nat),
    decreases entries,
{
    for i in 0..entries.len()
        invariant
            out@ == old(out)@ + filled_among(
                entries@.take(i as int),
                *transform,
                *limits,
                depth as nat,
            ),
    {
        let ghost before = filled_among(entries@.take(i as int), *transform, *limits, depth as nat);
        proof {
            let next = entries@.take(i + 1);
            assert(next.drop_last() =~= entries@.take(i as int));
            assert(next.last() == entries@[i as int]);
        }
        if let Some(object) = &entries[i] {
            collect_filled_paths(object, transform, limits, depth, out);
            proof {
                let own = filled_under(*object, *transform, *limits, depth as nat);
                assert((old(out)@ + before) + own =~= old(out)@ + (before + own));
            }
        }
    }
    proof {
        assert(entries@.take(entries@.len() as int) =~= entries@);
    }
}

/// The boxes of filled paths among objects are those among the first of them,
/// followed by those among the rest.
pub proof fn lemma_filled_concat(
    first: Seq<Option<PageObject>>,
    second: Seq<Option<PageObject>>,
    transform: Option<Matrix>,
    limits: SizeLimits,
    depth: nat,
)
    ensures
        filled_among(first + second, transform, limits, depth) == filled_among(
            first,
            transform,
            limits,
            depth,
        ) + filled_among(second, transform, limits, depth),
    decreases second.len(),
{
    let before = filled_among(first, transform, limits, depth);
    if second.len() == 0 {
        assert(first + second =~= first);
        assert(before + filled_among(second, transform, limits, depth) =~= before);
    } else {
        lemma_filled_concat(first, second.drop_last(), transform, limits, depth);
        assert((first + second).drop_last() =~= first + second.drop_last());
        assert((first + second).last() == second.last());
        let rest = filled_among(second.drop_last(), transform, limits, depth);
        if let Some(object) = second.last() {
            let own = filled_under(object, transform, limits, depth);
            assert((before + rest) + own =~= before + (rest + own));
        }
    }
}

/// Every box of a filled path under an object has a size within the limits.
pub proof fn lemma_filled_under_within_limits(
    object: PageObject,
    transform: Option<Matrix>,
    limits: SizeLimits,
    depth: nat,
)
    ensures
        object::all_within(filled_under(object, transform, limits, depth), limits),
    decreases object,
{
    if object.kind == FORM_OBJECT {
        if depth < MAX_FILLED_DEPTH {
            lemma_filled_within_limits(
                object.children@,
                within_form(transform, object.matrix),
                limits,
                depth + 1,
            );
        }
    }
}

/// Every box of a filled path among objects has a size within the limits.
pub proof fn lemma_filled_within_limits(
    entries: Seq<Option<PageObject>>,
    transform: Option<Matrix>,
    limits: SizeLimits,
    depth: nat,
)
    ensures
        object::all_within(filled_among(entries, transform, limits, depth), limits),
    decreases entries,
{
    if entries.len() > 0 {
        lemma_filled_within_limits(entries.drop_last(), transform, limits, depth);
        if let Some(object) = entries.last() {
            lemma_filled_under_within_limits(object, transform, limits, depth);
        }
    }
}

/// What is nested deeper than the limit does not show in the boxes under an
/// object.
pub proof fn lemma_filled_under_depth(
    first: PageObject,
    second: PageObject,
    transform: Option<Matrix>,
    limits: SizeLimits,
    depth: nat,
    levels: nat,
)
    requires
        object::alike(Some(first), Some(second), levels),
        levels + depth >= MAX_FILLED_DEPTH,
    ensures
        filled_under(first, transform, limits, depth) == filled_under(
            second,
            transform,
            limits,
            depth,
        ),
    decreases first,
{
    if first.kind == FORM_OBJECT && depth < MAX_FILLED_DEPTH {
        lemma_filled_depth(
            first.children@,
            second.children@,
            within_form(transform, first.matrix),
            limits,
            depth + 1,
            (levels - 1) as nat,
        );
    }
}

/// What is nested deeper than the limit does not show in the boxes among
/// objects.
pub proof fn lemma_filled_depth(
    first: Seq<Option<PageObject>>,
    second: Seq<Option<PageObject>>,
    transform: Option<Matrix>,
    limits: SizeLimits,
    depth: nat,
    levels: nat,
)
    requires
        object::all_alike(first, second, levels),
        levels + depth >= MAX_FILLED_DEPTH,
    ensures
        filled_among(first, transform, limits, depth) == filled_among(
            second,
            transform,
            limits,
            depth,
        ),
    decreases first,
{
    if first.len() > 0 {
        reveal_with_fuel(object::all_alike, 2);
        reveal_with_fuel(object::alike, 2);
        lemma_filled_depth(
            first.drop_last(),
            second.drop_last(),
            transform,
            limits,
            depth,
            levels,
        );
        if first.last() is Some {
            lemma_filled_under_depth(
                first.last()->0,
                second.last()->0,
                transform,
                limits,
                depth,
                levels,
            );
        }
    }
}

/// Paths that are not filled, such as rules and borders, and paths filled with
/// a light or transparent shade have no boxes.
pub proof fn lemma_only_ink_is_boxed(
    object: PageObject,
    transform: Option<Matrix>,
    limits: SizeLimits,
    depth: nat,
)
    requires
        object.kind == PATH_OBJECT,
        !fills(object.draw_mode) || !color::inked(object.fill_color),
    ensures
        filled_under(object, transform, limits, depth).len() == 0,
{
}

/// A filled path whose colour cannot be read, as that of a pattern or a
/// shading, has its box, if the size is within the limits.
pub proof fn lemma_unreadable_fill_is_boxed(
    object: PageObject,
    transform: Option<Matrix>,
    limits: SizeLimits,
    depth: nat,
)
    requires
        object.kind == PATH_OBJECT,
        fills(object.draw_mode),
        !object.fill_color.given(),
        object.bounds.given(),
        limits.placed(in_page(transform, object.bounds.value)) is Some,
    ensures
        filled_under(object, transform, limits, depth) == seq![
            limits.placed(in_page(transform, object.bounds.value))->0,
        ],
{
}

/// Transforms of the same numbers collect boxes of the same numbers under an
/// object.
pub proof fn lemma_filled_under_same(
    object: PageObject,
    first: Matrix,
    second: Matrix,
    limits: SizeLimits,
    depth: nat,
)
    requires
        first.same_numbers(second),
    ensures
        object::same_boxes(
            filled_under(object, Some(first), limits, depth),
            filled_under(object, Some(second), limits, depth),
        ),
    decreases object,
{
    if object.kind == FORM_OBJECT {
        if depth < MAX_FILLED_DEPTH {
            geometry::lemma_after_same(first, second, object.matrix.value);
            lemma_filled_same(
                object.children@,
                within_form(Some(first), object.matrix)->0,
                within_form(Some(second), object.matrix)->0,
                limits,
                depth + 1,
            );
        }
    } else {
        geometry::lemma_image_box_same(first, second, object.bounds.value);
        object::lemma_placed_same(
            limits,
            first.image_box(object.bounds.value),
            second.image_box(object.bounds.value),
        );
    }
}

/// Transforms of the same numbers collect boxes of the same numbers among
/// objects.
pub proof fn lemma_filled_same(
    entries: Seq<Option<PageObject>>,
    first: Matrix,
    second: Matrix,
    limits: SizeLimits,
    depth: nat,
)
    requires
        first.same_numbers(second),
    ensures
        object::same_boxes(
            filled_among(entries, Some(first), limits, depth),
            filled_among(entries, Some(second), limits, depth),
        ),
    decreases entries,
{
    if entries.len() > 0 {
        lemma_filled_same(entries.drop_last(), first, second, limits, depth);
        if let Some(object) = entries.last() {
            lemma_filled_under_same(object, first, second, limits, depth);
        }
    }
}

/// Whether, in and below an object, the bounds of paths are finite and not
/// inside out, and the matrices of forms are finite, as far as they can be
/// read.
pub open spec fn is_plain(object: PageObject) -> bool
    decreases object,
{
    if object.kind == FORM_OBJECT {
        &&& object.matrix.given() ==> object.matrix.value.is_finite()
        &&& all_plain(object.children@)
    } else {
        object.kind == PATH_OBJECT && object.bounds.given() ==> {
            &&& object.bounds.value.is_finite()
            &&& object.bounds.value.is_ordered()
        }
    }
}

/// Whether all objects are plain.
pub open spec fn all_plain(entries: Seq<Option<PageObject>>) -> bool
    decreases entries,
{
    entries.len() > 0 ==> {
        &&& all_plain(entries.drop_last())
        &&& entries.last() matches Some(object) ==> is_plain(object)
    }
}

/// No transform and the identity collect boxes of the same numbers under a
/// plain object: as many, in the same order, and of the same values wherever
/// they are finite.
pub proof fn lemma_identity_collects_the_same(object: PageObject, limits: SizeLimits, depth: nat)
    requires
        is_plain(object),
    ensures
        object::same_boxes(
            filled_under(object, None, limits, depth),
            filled_under(object, Some(Matrix::unit()), limits, depth),
        ),
    decreases object,
{
    let unit = Matrix::unit();
    if object.kind == FORM_OBJECT {
        if depth < MAX_FILLED_DEPTH {
            if object.matrix.given() {
                let matrix = object.matrix.value;
                geometry::lemma_identity_is_neutral(matrix);
                lemma_filled_same(object.children@, matrix, unit.after(matrix), limits, depth + 1);
            } else {
                lemma_identity_collects_all_the_same(object.children@, limits, depth + 1);
            }
        }
    } else if object.kind == PATH_OBJECT && object.bounds.given() {
        let area = object.bounds.value;
        geometry::lemma_identity_keeps_boxes(area);
        object::lemma_placed_same(limits, area, unit.image_box(area));
    }
}

/// No transform and the identity collect boxes of the same numbers among plain
/// objects.
pub proof fn lemma_identity_collects_all_the_same(
    entries: Seq<Option<PageObject>>,
    limits: SizeLimits,
    depth: nat,
)
    requires
        all_plain(entries),
    ensures
        object::same_boxes(
            filled_among(entries, None, limits, depth),
            filled_among(entries, Some(Matrix::unit()), limits, depth),
        ),
    decreases entries,
{
    if entries.len() > 0 {
        lemma_identity_collects_all_the_same(entries.drop_last(), limits, depth);
        if let Some(object) = entries.last() {
            lemma_identity_collects_the_same(object, limits, depth);
        }
    }
}

/// Whether a path object has what a box takes: a fill mode that can be read
/// and is not that of no fill, bounds that can be read, and a fill colour that
/// cannot be read, or is opaque by half or more and not lighter than 140.
pub open spec fn has_ink(object: PageObject) -> bool {
    &&& object.draw_mode.ok != 0
    &&& object.draw_mode.value.fill_mode != 0
    &&& object.bounds.ok != 0
    &&& object.fill_color.ok != 0 ==> {
        &&& object.fill_color.value.a >= 128
        &&& !Single::of_int(140).lt(object.fill_color.value.brightness())
    }
}

/// Where the bounds of a path lie on the page: where they are, if no transform
/// is in the way, and else in the box around the images of their corners.
pub open spec fn lies_at(transform: Option<Matrix>, bounds: RectF, area: RectF) -> bool {
    match transform {
        None => area == bounds,
        Some(matrix) => {
            let (x1, y1) = matrix.image(bounds.left, bounds.bottom);
            let (x2, y2) = matrix.image(bounds.left, bounds.top);
            let (x3, y3) = matrix.image(bounds.right, bounds.bottom);
            let (x4, y4) = matrix.image(bounds.right, bounds.top);
            &&& single::are_ends(area.left, area.right, seq![x1, x2, x3, x4])
            &&& single::are_ends(area.bottom, area.top, seq![y1, y2, y3, y4])
        },
    }
}

/// The bounds of a path are carried to the page as they are without a
/// transform, and into the box around their corners' images with one.
pub proof fn lemma_bounds_in_page(transform: Option<Matrix>, bounds: RectF)
    ensures
        lies_at(transform, bounds, in_page(transform, bounds)),
{
    if let Some(matrix) = transform {
        geometry::lemma_image_box_reaches_its_corners(matrix, bounds);
    }
}

/// A path object that can be read, is filled with what may be ink, and has a
/// size within the limits where it lies on the page, has exactly one box,
/// which is where it lies; and no other path object has any. Whether the path
/// is stroked as well does not matter.
pub proof fn lemma_filled_path_is_boxed(
    object: PageObject,
    transform: Option<Matrix>,
    limits: SizeLimits,
    depth: nat,
)
    requires
        object.kind == 2,
    ensures
        ({
            let boxes = filled_under(object, transform, limits, depth);
            let bounds = limits.in_viewport(in_page(transform, object.bounds.value));
            let filled = object.draw_mode.ok != 0 && object.draw_mode.value.fill_mode != 0;
            let fill = object.fill_color;
            let dark = fill.value.a >= 128 && !Single::of_int(140).lt(fill.value.brightness());
            let narrow = bounds.width.lt(limits.min_size);
            let flat = bounds.height.lt(limits.min_size);
            let wide = limits.page_width.product(limits.max_coverage).lt(bounds.width);
            let high = limits.page_height.product(limits.max_coverage).lt(bounds.height);
            let boxed = filled && object.bounds.ok != 0 && (fill.ok == 0 || dark) && !narrow
                && !flat && !(wide && high);
            &&& boxed ==> boxes == seq![bounds]
            &&& !boxed ==> boxes.len() == 0
        }),
{
    color::lemma_ink_is_dark_and_opaque(object.fill_color);
}

/// Path objects that have the same fill mode, fill colour and bounds have the
/// same boxes, whatever else they differ in: their stroke, its colour and its
/// width, their matrix, their segments.
pub proof fn lemma_only_the_fill_is_boxed(
    object: PageObject,
    other: PageObject,
    transform: Option<Matrix>,
    limits: SizeLimits,
    depth: nat,
    other_depth: nat,
)
    requires
        object.kind == 2,
        other.kind == 2,
        (object.draw_mode.ok != 0) == (other.draw_mode.ok != 0),
        (object.draw_mode.value.fill_mode != 0) == (other.draw_mode.value.fill_mode != 0),
        object.fill_color == other.fill_color,
        object.bounds == other.bounds,
    ensures
        filled_under(object, transform, limits, depth) == filled_under(
            other,
            transform,
            limits,
            other_depth,
        ),
{
}

/// A form holds what its objects hold, one level deeper and through its
/// matrix; beyond the limit of nesting it holds nothing. Objects that are
/// neither forms nor paths hold nothing.
pub proof fn lemma_forms_are_opened(
    object: PageObject,
    transform: Option<Matrix>,
    limits: SizeLimits,
    depth: nat,
)
    ensures
        object.kind == 5 && depth < 4 ==> filled_under(object, transform, limits, depth)
            == filled_among(
            object.children@,
            within_form(transform, object.matrix),
            limits,
            depth + 1,
        ),
        object.kind == 5 && depth >= 4 ==> filled_under(
            object,
            transform,
            limits,
            depth,
        ).len() == 0,
        object.kind != 5 && object.kind != 2 ==> filled_under(
            object,
            transform,
            limits,
            depth,
        ).len() == 0,
{
}

/// Inside a form whose matrix cannot be read, what is around it goes on to
/// hold; inside one whose matrix can be read, the first such matrix is the
/// transform, and each further one acts before those around it, wherever
/// nothing is rounded.
pub proof fn lemma_forms_act_from_the_inside(
    transform: Option<Matrix>,
    matrix: Answer<Matrix>,
    x: Single,
    y: Single,
)
    ensures
        matrix.ok == 0 ==> within_form(transform, matrix) == transform,
        matrix.ok != 0 && transform is None ==> within_form(transform, matrix) == Some(
            matrix.value,
        ),
        matrix.ok != 0 && transform is Some ==> within_form(transform, matrix) is Some,
        matrix.ok != 0 && transform is Some && geometry::applies_exactly(transform->0, matrix.value, x, y)
            ==> {
            let (u, v) = matrix.value.image(x, y);
            let once = within_form(transform, matrix)->0.image(x, y);
            let twice = transform->0.image(u, v);
            once.0.same_value(twice.0) && once.1.same_value(twice.1)
        },
        matrix.ok != 0 && transform is Some ==> {
            let both = within_form(transform, matrix)->0;
            let across = transform->0.linear().image(matrix.value.a, matrix.value.b);
            let up = transform->0.linear().image(matrix.value.c, matrix.value.d);
            &&& both.a.same_number(across.0) && both.b.same_number(across.1)
            &&& both.c.same_number(up.0) && both.d.same_number(up.1)
            &&& (both.e, both.f) == transform->0.image(matrix.value.e, matrix.value.f)
        },
{
    if let Some(outer) = transform {
        geometry::lemma_composition_columns(outer, matrix.value);
        if geometry::applies_exactly(outer, matrix.value, x, y) {
            geometry::lemma_composition_applies_in_turn(outer, matrix.value, x, y);
        }
    }
}

/// Boxes are collected entry by entry: nothing from a null entry, and from an
/// object what it holds.
pub proof fn lemma_filled_among_one(
    entry: Option<PageObject>,
    transform: Option<Matrix>,
    limits: SizeLimits,
    depth: nat,
)
    ensures
        filled_among(Seq::empty(), transform, limits, depth).len() == 0,
        entry is None ==> filled_among(seq![entry], transform, limits, depth).len() == 0,
        entry matches Some(object) ==> filled_among(seq![entry], transform, limits, depth)
            == filled_under(object, transform, limits, depth),
{
    let one = seq![entry];
    let none = Seq::<Option<PageObject>>::empty();
    assert(one.drop_last() =~= none);
    assert(one.last() == entry);
    assert(filled_among(none, transform, limits, depth) =~= Seq::empty());
    if let Some(object) = entry {
        let own = filled_under(object, transform, limits, depth);
        assert(Seq::<ImageBounds>::empty() + own =~= own);
    }
}

/// A filled path at the top of a page, or in a form, has its box in the
/// result, behind those of what comes before it.
pub proof fn lemma_filled_path_is_found(
    entries: Seq<Option<PageObject>>,
    transform: Option<Matrix>,
    limits: SizeLimits,
    depth: nat,
    at: int,
)
    requires
        0 <= at < entries.len(),
        entries[at] is Some,
        entries[at]->0.kind == 2,
        has_ink(entries[at]->0),
        ({
            let bounds = limits.in_viewport(in_page(transform, entries[at]->0.bounds.value));
            object::size_fits(limits, bounds.width, bounds.height)
        }),
    ensures
        ({
            let boxes = filled_among(entries, transform, limits, depth);
            let before = filled_among(entries.take(at), transform, limits, depth).len() as int;
            &&& before < boxes.len()
            &&& boxes[before] == limits.in_viewport(
                in_page(transform, entries[at]->0.bounds.value),
            )
        }),
{
    let one = seq![entries[at]];
    let rest = entries.skip(at + 1);
    assert(entries =~= entries.take(at) + (one + rest));
    lemma_filled_concat(entries.take(at), one + rest, transform, limits, depth);
    lemma_filled_concat(one, rest, transform, limits, depth);
    lemma_filled_among_one(entries[at], transform, limits, depth);
    lemma_filled_path_is_boxed(entries[at]->0, transform, limits, depth);
}

} // verus!
