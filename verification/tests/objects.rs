use pdf_page::color::{is_ink, read_color};
use pdf_page::filled::collect_filled_paths;
use pdf_page::{
    Answer, Channels, Color, DevicePoint, DrawMode, ImageBounds, Matrix, Page, PageObject,
    PdfiumError, Point, RawSegment, RectF, SegmentKind, Single, SizeLimits,
    ViewportTransform,
};

const PATH: i32 = 2;
const IMAGE: i32 = 3;
const FORM: i32 = 5;

fn single(x: f32) -> Single {
    Single::from_bits(x.to_bits())
}

fn number(x: Single) -> f32 {
    f32::from_bits(x.to_bits())
}

fn given<T>(value: T) -> Answer<T> {
    Answer { ok: 1, value }
}

fn failed<T>(value: T) -> Answer<T> {
    Answer { ok: 0, value }
}

fn channels(r: u32, g: u32, b: u32, a: u32) -> Channels {
    Channels { r, g, b, a }
}

fn area(left: f32, bottom: f32, right: f32, top: f32) -> RectF {
    RectF {
        left: single(left),
        top: single(top),
        right: single(right),
        bottom: single(bottom),
    }
}

fn shift(x: f32, y: f32) -> Matrix {
    let mut m = Matrix::identity();
    m.e = single(x);
    m.f = single(y);
    m
}

fn object(kind: i32, bounds: RectF) -> PageObject {
    PageObject {
        kind,
        matrix: given(Matrix::identity()),
        bounds: given(bounds),
        draw_mode: given(DrawMode {
            fill_mode: 1,
            stroke: 0,
        }),
        stroke_color: failed(channels(0, 0, 0, 0)),
        fill_color: given(channels(0, 0, 0, 255)),
        stroke_width: single(0.0),
        segments: Vec::new(),
        children: Vec::new(),
    }
}

fn form(matrix: Answer<Matrix>, children: Vec<Option<PageObject>>) -> PageObject {
    let mut form = object(FORM, area(0.0, 0.0, 0.0, 0.0));
    form.matrix = matrix;
    form.children = children;
    form
}

fn nested(levels: usize, inner: PageObject) -> PageObject {
    let mut outer = inner;
    for _ in 0..levels {
        outer = form(given(shift(1.0, 2.0)), vec![None, Some(outer)]);
    }
    outer
}

fn page(objects: Vec<Option<PageObject>>) -> Page {
    Page {
        width: single(612.0),
        height: single(792.0),
        rotation: 0,
        bounding_box: given(area(0.0, 0.0, 612.0, 792.0)),
        objects,
        links: Vec::new(),
    }
}

fn numbers(b: &ImageBounds) -> [f32; 4] {
    [number(b.x), number(b.y), number(b.width), number(b.height)]
}

fn all(boxes: &[ImageBounds]) -> Vec<[f32; 4]> {
    boxes.iter().map(numbers).collect()
}

fn flipped() -> ViewportTransform {
    ViewportTransform::from_probes(
        &DevicePoint { x: 0, y: 792000 },
        &DevicePoint { x: 1000, y: 792000 },
        &DevicePoint { x: 0, y: 791000 },
    )
}

#[test]
fn colors_are_read() {
    assert_eq!(read_color(&failed(channels(1, 2, 3, 4))), None);
    assert_eq!(
        read_color(&given(channels(1, 2, 3, 255))),
        Some(Color { r: 1, g: 2, b: 3, a: 255 })
    );
    assert_eq!(
        read_color(&given(channels(256, 257, 511, 0x1234))),
        Some(Color { r: 0, g: 1, b: 255, a: 0x34 })
    );
}

#[test]
fn ink_is_dark_and_opaque() {
    assert!(is_ink(&given(channels(0, 0, 0, 255))));
    assert!(is_ink(&given(channels(0, 0, 0, 128))));
    assert!(!is_ink(&given(channels(0, 0, 0, 127))));
    assert!(!is_ink(&given(channels(255, 255, 255, 255))));
    assert!(is_ink(&given(channels(255, 0, 0, 255))));
    assert!(!is_ink(&given(channels(0, 255, 0, 255))));
    assert!(is_ink(&failed(channels(255, 255, 255, 0))));
}

#[test]
fn luminance_agrees_with_hardware() {
    for r in (0..256u32).step_by(5) {
        for g in (0..256u32).step_by(5) {
            for b in (0..256u32).step_by(3) {
                let luminance = 0.299 * r as f32 + 0.587 * g as f32 + 0.114 * b as f32;
                let colour = channels(r, g, b, 255);
                assert_eq!(number(colour.luminance()), luminance);
                assert_eq!(is_ink(&given(colour)), !(luminance > 140.0));
            }
        }
    }
}

#[test]
fn images_of_interest_are_boxed() {
    let mut unreadable = object(IMAGE, area(0.0, 0.0, 50.0, 50.0));
    unreadable.bounds.ok = 0;
    let page = page(vec![
        Some(object(IMAGE, area(10.0, 20.0, 110.0, 220.0))),
        None,
        Some(object(PATH, area(10.0, 20.0, 110.0, 220.0))),
        Some(object(IMAGE, area(0.0, 0.0, 9.0, 100.0))),
        Some(object(IMAGE, area(0.0, 0.0, 100.0, 9.0))),
        Some(object(IMAGE, area(0.0, 0.0, 612.0, 792.0))),
        Some(unreadable),
        // As wide as the page, but not as high.
        Some(object(IMAGE, area(0.0, 700.0, 612.0, 792.0))),
        Some(object(IMAGE, area(5.0, 5.0, 15.0, 15.0))),
    ]);
    assert_eq!(
        all(&page.image_bounds(single(10.0), single(0.9))),
        vec![
            [10.0, 572.0, 100.0, 200.0],
            [0.0, 0.0, 612.0, 92.0],
            [5.0, 777.0, 10.0, 10.0],
        ]
    );
}

#[test]
fn limits_are_strict() {
    // Exactly the least size, and exactly the largest part of the page.
    let page = page(vec![
        Some(object(IMAGE, area(0.0, 0.0, 10.0, 10.0))),
        Some(object(IMAGE, area(0.0, 0.0, 306.0, 396.0))),
        Some(object(IMAGE, area(0.0, 0.0, 307.0, 397.0))),
    ]);
    let boxes = page.image_bounds(single(10.0), single(0.5));
    assert_eq!(all(&boxes), vec![[0.0, 782.0, 10.0, 10.0], [0.0, 396.0, 306.0, 396.0]]);
}

#[test]
fn images_of_unknown_size_are_boxed() {
    // No comparison with a NaN holds, so none leaves the image out.
    let page = page(vec![Some(object(IMAGE, area(f32::NAN, 0.0, 10.0, 10.0)))]);
    assert_eq!(page.image_bounds(single(1.0), single(0.5)).len(), 1);
}

#[test]
fn image_objects_are_numbered() {
    let page = page(vec![
        Some(object(PATH, area(0.0, 0.0, 1.0, 1.0))),
        Some(object(IMAGE, area(0.0, 0.0, 1.0, 1.0))),
        None,
        Some(object(IMAGE, area(0.0, 0.0, 1.0, 1.0))),
        Some(object(FORM, area(0.0, 0.0, 1.0, 1.0))),
    ]);
    assert_eq!(page.render_image_object(0), Ok(1));
    assert_eq!(page.render_image_object(1), Ok(3));
    assert_eq!(page.render_image_object(2), Err(PdfiumError::OperationFailed));
    assert_eq!(page.render_image_object(usize::MAX), Err(PdfiumError::OperationFailed));
}

#[test]
fn filled_paths_are_boxed() {
    let mut stroked = object(PATH, area(0.0, 0.0, 20.0, 20.0));
    stroked.draw_mode = given(DrawMode {
        fill_mode: 0,
        stroke: 1,
    });
    let mut unknown_mode = object(PATH, area(0.0, 0.0, 20.0, 20.0));
    unknown_mode.draw_mode.ok = 0;
    let mut light = object(PATH, area(0.0, 0.0, 20.0, 20.0));
    light.fill_color = given(channels(240, 240, 240, 255));
    let mut clear = object(PATH, area(0.0, 0.0, 20.0, 20.0));
    clear.fill_color = given(channels(0, 0, 0, 10));
    let mut pattern = object(PATH, area(1.0, 2.0, 31.0, 42.0));
    pattern.fill_color = failed(channels(0, 0, 0, 0));
    let mut unreadable = object(PATH, area(0.0, 0.0, 20.0, 20.0));
    unreadable.bounds.ok = 0;
    let page = page(vec![
        Some(stroked),
        Some(unknown_mode),
        Some(light),
        Some(clear),
        Some(pattern),
        Some(unreadable),
        None,
        Some(object(IMAGE, area(0.0, 0.0, 20.0, 20.0))),
        Some(object(PATH, area(0.0, 0.0, 3.0, 20.0))),
        Some(object(PATH, area(0.0, 0.0, 612.0, 792.0))),
        Some(object(PATH, area(100.0, 100.0, 120.0, 130.0))),
    ]);
    assert_eq!(
        all(&page.filled_path_bounds(single(5.0), single(0.9))),
        vec![[1.0, 750.0, 30.0, 40.0], [100.0, 662.0, 20.0, 30.0]]
    );
}

#[test]
fn filled_paths_are_found_in_forms() {
    let path = || object(PATH, area(0.0, 0.0, 20.0, 10.0));
    let mut scale = Matrix::identity();
    scale.a = single(2.0);
    scale.d = single(-1.0);
    let page = page(vec![
        Some(form(
            given(shift(100.0, 200.0)),
            vec![Some(path()), Some(form(given(scale), vec![Some(path())]))],
        )),
        // The matrix of the inner form cannot be read: that of the outer holds.
        Some(form(
            given(shift(5.0, 6.0)),
            vec![Some(form(failed(scale), vec![Some(path())]))],
        )),
        // No matrix can be read: the bounds are the page's own.
        Some(form(failed(scale), vec![Some(path())])),
    ]);
    assert_eq!(
        all(&page.filled_path_bounds(single(1.0), single(0.9))),
        vec![
            [100.0, 582.0, 20.0, 10.0],
            [100.0, 592.0, 40.0, 10.0],
            [5.0, 776.0, 20.0, 10.0],
            [0.0, 782.0, 20.0, 10.0],
        ]
    );
}

#[test]
fn filled_paths_nest_to_a_limit() {
    let path = || object(PATH, area(0.0, 0.0, 20.0, 10.0));
    let found = page(vec![Some(nested(4, path()))]);
    assert_eq!(
        all(&found.filled_path_bounds(single(1.0), single(0.9))),
        vec![[4.0, 774.0, 20.0, 10.0]]
    );
    let lost = page(vec![Some(nested(5, path()))]);
    assert!(lost.filled_path_bounds(single(1.0), single(0.9)).is_empty());
}

fn segment(kind: i32, x: f32, y: f32, close: i32) -> Option<RawSegment> {
    Some(RawSegment {
        point: given(Point {
            x: single(x),
            y: single(y),
        }),
        kind,
        close,
    })
}

#[test]
fn paths_are_carried_into_the_viewport() {
    let mut path = object(PATH, area(10.0, 20.0, 30.0, 60.0));
    path.matrix = given(shift(10.0, 20.0));
    path.draw_mode = given(DrawMode {
        fill_mode: 2,
        stroke: 1,
    });
    path.stroke_color = given(channels(9, 8, 7, 6));
    path.fill_color = failed(channels(1, 1, 1, 1));
    path.stroke_width = single(1.5);
    let mut unreadable = segment(0, 0.0, 0.0, 0);
    unreadable.as_mut().unwrap().point.ok = 0;
    path.segments = vec![
        segment(2, 0.0, 0.0, 0),
        segment(0, 20.0, 0.0, 0),
        None,
        segment(7, 1.0, 1.0, 0),
        segment(-1, 1.0, 1.0, 0),
        unreadable,
        segment(1, 20.0, 40.0, 1),
    ];
    let paths = page(vec![Some(path)]).path_objects(&flipped());
    assert_eq!(paths.len(), 1);
    let found = &paths[0];
    assert_eq!(
        [
            number(found.bbox.left),
            number(found.bbox.top),
            number(found.bbox.right),
            number(found.bbox.bottom)
        ],
        [10.0, 732.0, 30.0, 772.0]
    );
    assert_eq!(found.stroke_color, Some(Color { r: 9, g: 8, b: 7, a: 6 }));
    assert_eq!(found.fill_color, None);
    assert_eq!(number(found.stroke_width), 1.5);
    assert!(found.is_stroked);
    assert!(found.is_filled);
    let segments: Vec<(SegmentKind, f32, f32, bool)> = found
        .segments
        .iter()
        .map(|s| (s.kind, number(s.x), number(s.y), s.close))
        .collect();
    assert_eq!(
        segments,
        vec![
            (SegmentKind::MoveTo, 10.0, 772.0, false),
            (SegmentKind::LineTo, 30.0, 772.0, false),
            (SegmentKind::BezierTo, 30.0, 732.0, true),
        ]
    );
}

#[test]
fn paths_without_bounds_are_left_out() {
    let mut path = object(PATH, area(0.0, 0.0, 1.0, 1.0));
    path.bounds.ok = 0;
    let page = page(vec![
        Some(path),
        None,
        Some(object(IMAGE, area(0.0, 0.0, 1.0, 1.0))),
    ]);
    assert!(page.path_objects(&flipped()).is_empty());
}

#[test]
fn paths_without_a_draw_mode_are_not_painted() {
    let mut path = object(PATH, area(0.0, 0.0, 1.0, 1.0));
    path.draw_mode = failed(DrawMode {
        fill_mode: 1,
        stroke: 1,
    });
    let paths = page(vec![Some(path)]).path_objects(&flipped());
    assert_eq!((paths[0].is_filled, paths[0].is_stroked), (false, false));
}

#[test]
fn paths_nest_to_a_limit() {
    let path = || {
        let mut path = object(PATH, area(0.0, 0.0, 20.0, 10.0));
        path.segments = vec![segment(2, 1.0, 1.0, 0)];
        path
    };
    let found = page(vec![Some(nested(6, path()))]).path_objects(&flipped());
    assert_eq!(found.len(), 1);
    assert_eq!(number(found[0].bbox.left), 6.0);
    assert_eq!(number(found[0].bbox.bottom), 780.0);
    assert_eq!(number(found[0].segments[0].x), 7.0);
    assert_eq!(number(found[0].segments[0].y), 779.0);
    let lost = page(vec![Some(nested(7, path()))]).path_objects(&flipped());
    assert!(lost.is_empty());
}

#[test]
fn objects_are_walked_in_order() {
    let path = |x: f32| Some(object(PATH, area(x, 0.0, x + 10.0, 10.0)));
    let page = page(vec![
        path(1.0),
        Some(form(failed(Matrix::identity()), vec![path(2.0), path(3.0)])),
        path(4.0),
    ]);
    let lefts: Vec<f32> = page
        .path_objects(&flipped())
        .iter()
        .map(|p| number(p.bbox.left))
        .collect();
    assert_eq!(lefts, vec![1.0, 2.0, 3.0, 4.0]);
    let xs: Vec<f32> = page
        .filled_path_bounds(single(1.0), single(0.9))
        .iter()
        .map(|b| number(b.x))
        .collect();
    assert_eq!(xs, vec![1.0, 2.0, 3.0, 4.0]);
}

#[test]
fn darker_than_ink_is_ink() {
    for shade in 0..256u32 {
        let grey = is_ink(&given(channels(shade, shade, shade, 200)));
        let darker = is_ink(&given(channels(shade / 2, shade, shade.saturating_sub(1), 255)));
        assert!(!grey || darker);
    }
}

#[test]
fn boxes_follow_their_objects() {
    let image = |x: f32| Some(object(IMAGE, area(x, 0.0, x + 10.0, 10.0)));
    let small = Some(object(IMAGE, area(0.0, 0.0, 1.0, 1.0)));
    let boxes = page(vec![image(1.0), small, image(2.0), None, image(3.0)])
        .image_bounds(single(5.0), single(0.9));
    let xs: Vec<f32> = boxes.iter().map(|b| number(b.x)).collect();
    assert_eq!(xs, vec![1.0, 2.0, 3.0]);
}

#[test]
fn forms_within_limits_of_size() {
    // The size that counts is that on the page.
    let mut tiny = Matrix::identity();
    tiny.a = single(0.125);
    tiny.d = single(0.125);
    let path = || Some(object(PATH, area(0.0, 0.0, 80.0, 40.0)));
    let page = page(vec![Some(form(given(tiny), vec![path()])), path()]);
    assert_eq!(
        all(&page.filled_path_bounds(single(6.0), single(0.9))),
        vec![[0.0, 752.0, 80.0, 40.0]]
    );
    assert_eq!(
        all(&page.filled_path_bounds(single(5.0), single(0.9))),
        vec![[0.0, 787.0, 10.0, 5.0], [0.0, 752.0, 80.0, 40.0]]
    );
}

fn turned(rotation: i32, objects: Vec<Option<PageObject>>) -> Page {
    let mut page = page(objects);
    page.rotation = rotation;
    page.bounding_box = given(area(100.0, 50.0, 700.0, 850.0));
    let quarter = rotation == 1 || rotation == 3;
    page.width = single(if quarter { 800.0 } else { 600.0 });
    page.height = single(if quarter { 600.0 } else { 800.0 });
    page
}

fn expect_placed(page: &Page, expected: [f32; 4]) {
    assert_eq!(all(&page.image_bounds(single(1.0), single(0.9))), vec![expected]);
    assert_eq!(all(&page.filled_path_bounds(single(1.0), single(0.9))), vec![expected]);
}

fn one_of_each(bounds: RectF) -> Vec<Option<PageObject>> {
    vec![Some(object(IMAGE, bounds)), Some(object(PATH, bounds))]
}

#[test]
fn boxes_are_counted_from_the_view_box() {
    let mut page = page(one_of_each(area(150.0, 200.0, 250.0, 300.0)));
    page.width = single(300.0);
    page.height = single(400.0);
    page.bounding_box = given(area(100.0, 100.0, 400.0, 500.0));
    expect_placed(&page, [50.0, 200.0, 100.0, 100.0]);
}

#[test]
fn boxes_on_an_upright_page() {
    let page = turned(0, one_of_each(area(200.0, 250.0, 250.0, 350.0)));
    expect_placed(&page, [100.0, 500.0, 50.0, 100.0]);
}

#[test]
fn boxes_follow_a_quarter_turn() {
    let page = turned(1, one_of_each(area(200.0, 250.0, 250.0, 350.0)));
    expect_placed(&page, [200.0, 100.0, 100.0, 50.0]);
}

#[test]
fn boxes_follow_a_half_turn() {
    let page = turned(2, one_of_each(area(200.0, 250.0, 250.0, 350.0)));
    expect_placed(&page, [450.0, 200.0, 50.0, 100.0]);
}

#[test]
fn boxes_follow_three_quarter_turns() {
    let page = turned(3, one_of_each(area(200.0, 250.0, 250.0, 350.0)));
    expect_placed(&page, [500.0, 450.0, 100.0, 50.0]);
}

#[test]
fn turned_pages_at_the_origin() {
    let mut page = page(one_of_each(area(100.0, 200.0, 150.0, 300.0)));
    page.rotation = 1;
    page.width = single(800.0);
    page.height = single(600.0);
    page.bounding_box = given(area(0.0, 0.0, 600.0, 800.0));
    expect_placed(&page, [200.0, 100.0, 100.0, 50.0]);
}

#[test]
fn view_boxes_that_cannot_be_read() {
    let boxes = [
        (0, [200.0, 450.0, 50.0, 100.0]),
        (1, [250.0, 200.0, 100.0, 50.0]),
        (2, [350.0, 250.0, 50.0, 100.0]),
        (3, [450.0, 350.0, 100.0, 50.0]),
    ];
    for (rotation, expected) in boxes {
        let mut page = turned(rotation, one_of_each(area(200.0, 250.0, 250.0, 350.0)));
        page.bounding_box.ok = 0;
        expect_placed(&page, expected);
    }
}

#[test]
fn coverage_is_that_of_the_turned_page() {
    // 750 wide and 550 high as it is shown, on a page of 800 and 600.
    let bounds = area(100.0, 50.0, 650.0, 800.0);
    let page = turned(1, one_of_each(bounds));
    assert!(page.image_bounds(single(1.0), single(0.9)).is_empty());
    assert!(page.filled_path_bounds(single(1.0), single(0.9)).is_empty());
    expect_placed(&turned(1, one_of_each(area(100.0, 50.0, 640.0, 800.0))), [
        0.0, 0.0, 750.0, 540.0,
    ]);
}

#[test]
fn view_boxes_fill_the_viewport() {
    for rotation in 0..4 {
        let page = turned(rotation, one_of_each(area(100.0, 50.0, 700.0, 850.0)));
        let boxes = page.image_bounds(single(1.0), single(1.0));
        assert_eq!(all(&boxes), vec![[0.0, 0.0, number(page.width), number(page.height)]]);
    }
}

#[test]
fn the_identity_collects_the_same() {
    let limits = SizeLimits {
        page_width: single(612.0),
        page_height: single(792.0),
        view_box: area(3.0, 4.0, 615.0, 796.0),
        rotation: 3,
        min_size: single(1.0),
        max_coverage: single(0.9),
    };
    let path = || Some(object(PATH, area(-0.0, 0.1, 20.3, 10.7)));
    let mut scale = Matrix::identity();
    scale.a = single(-0.3);
    scale.c = single(1.7);
    let objects = [
        path().unwrap(),
        form(given(scale), vec![path(), Some(form(given(scale), vec![path()]))]),
        form(failed(scale), vec![path(), Some(form(given(scale), vec![path()]))]),
    ];
    for object in &objects {
        let mut plain = Vec::new();
        let mut lifted = Vec::new();
        collect_filled_paths(object, &None, &limits, 0, &mut plain);
        collect_filled_paths(object, &Some(Matrix::identity()), &limits, 0, &mut lifted);
        assert!(!plain.is_empty());
        assert_eq!(all(&plain), all(&lifted));
    }
}
