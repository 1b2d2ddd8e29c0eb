use pdf_page::link::{quad_bounds, read_uri_path, uri_buffer_len, uri_from_text};
use pdf_page::page::loaded;
use pdf_page::{
    Answer, DevicePoint, LinkAnnot, Page, PdfiumError, QuadPoints, RectF, Single, UriReply,
};

fn single(x: f32) -> Single {
    Single::from_bits(x.to_bits())
}

fn number(x: Single) -> f32 {
    f32::from_bits(x.to_bits())
}

fn rect(left: f32, top: f32, right: f32, bottom: f32) -> RectF {
    RectF {
        left: single(left),
        top: single(top),
        right: single(right),
        bottom: single(bottom),
    }
}

fn edges(r: &RectF) -> [f32; 4] {
    [number(r.left), number(r.top), number(r.right), number(r.bottom)]
}

fn page(rotation: i32, links: Vec<Option<LinkAnnot>>) -> Page {
    Page {
        width: single(612.0),
        height: single(792.0),
        rotation,
        bounding_box: Answer {
            ok: 1,
            value: rect(0.0, 792.0, 612.0, 0.0),
        },
        objects: Vec::new(),
        links,
    }
}

fn reply(bytes: &[u8]) -> UriReply {
    UriReply {
        needed: bytes.len(),
        buffer: bytes.to_vec(),
        written: bytes.len(),
    }
}

fn quad(ok: i32, left: f32, bottom: f32, right: f32, top: f32) -> Answer<QuadPoints> {
    Answer {
        ok,
        value: QuadPoints {
            x1: single(left),
            y1: single(top),
            x2: single(right),
            y2: single(top),
            x3: single(left),
            y3: single(bottom),
            x4: single(right),
            y4: single(bottom),
        },
    }
}

#[test]
fn page_sizes() {
    let page = page(3, Vec::new());
    assert_eq!(number(page.width()), 612.0);
    assert_eq!(number(page.height()), 792.0);
    assert_eq!(page.rotation(), 3);
    assert_eq!(edges(&page.view_box().unwrap()), [0.0, 792.0, 612.0, 0.0]);
}

#[test]
fn view_box_may_be_missing() {
    let mut page = page(0, Vec::new());
    page.bounding_box.ok = 0;
    assert!(page.view_box().is_none());
}

#[test]
fn device_is_a_thousand_units_to_the_point() {
    let view_box = rect(10.0, 700.25, 500.5, 0.0);
    let request = page(0, Vec::new()).device_request(&view_box, single(1.5), single(2.5));
    assert_eq!((request.size_x, request.size_y), (490500, 700250));
    assert_eq!((number(request.page_x), number(request.page_y)), (1.5, 2.5));
    assert_eq!((request.start_x, request.start_y, request.rotate), (0, 0, 0));
    let half_turn = page(2, Vec::new()).device_request(&view_box, single(1.5), single(2.5));
    assert_eq!(half_turn, request);
}

#[test]
fn quarter_turns_swap_the_device() {
    let view_box = rect(10.0, 700.25, 500.5, 0.0);
    for rotation in [1, 3] {
        let request =
            page(rotation, Vec::new()).device_request(&view_box, single(0.0), single(0.0));
        assert_eq!((request.size_x, request.size_y), (700250, 490500));
    }
}

#[test]
fn points_come_back_in_viewport_units() {
    let (x, y) = Page::page_to_viewport(&DevicePoint { x: 72500, y: 144001 });
    assert_eq!((number(x), number(y)), (72.5, 144.001));
}

#[test]
fn bounds_are_ordered_in_the_viewport() {
    let (low, high) = page(0, Vec::new())
        .bounds_requests(&rect(0.0, 792.0, 612.0, 0.0), &rect(1.0, 4.0, 3.0, 2.0));
    assert_eq!((number(low.page_x), number(low.page_y)), (1.0, 2.0));
    assert_eq!((number(high.page_x), number(high.page_y)), (3.0, 4.0));
    let bounds = Page::bounds_to_viewport(
        &DevicePoint { x: 3000, y: 790000 },
        &DevicePoint { x: 1000, y: 788000 },
    );
    assert_eq!(edges(&bounds), [1.0, 788.0, 3.0, 790.0]);
}

#[test]
fn three_points_are_probed() {
    let (origin, unit_x, unit_y) =
        page(0, Vec::new()).viewport_requests(&rect(0.0, 792.0, 612.0, 0.0));
    assert_eq!((number(origin.page_x), number(origin.page_y)), (0.0, 0.0));
    assert_eq!((number(unit_x.page_x), number(unit_x.page_y)), (1.0, 0.0));
    assert_eq!((number(unit_y.page_x), number(unit_y.page_y)), (0.0, 1.0));
    assert_eq!((unit_y.size_x, unit_y.size_y), (612000, 792000));
    let vp = Page::viewport_transform(
        &DevicePoint { x: 0, y: 792000 },
        &DevicePoint { x: 1000, y: 792000 },
        &DevicePoint { x: 0, y: 791000 },
    );
    let (x, y) = vp.transform_point(single(1.0), single(1.0));
    assert_eq!((number(x), number(y)), (1.0, 791.0));
}

#[test]
fn null_handles_are_errors() {
    assert_eq!(Page::text(Some(7u8)), Ok(7));
    assert_eq!(Page::text(None::<u8>), Err(PdfiumError::OperationFailed));
    assert_eq!(loaded(Some(7u8)), Ok(7));
    assert_eq!(loaded(None::<u8>), Err(PdfiumError::OperationFailed));
}

#[test]
fn rendering_scales_with_the_resolution() {
    let page = page(0, Vec::new());
    let request = page.render(single(72.0));
    assert_eq!((request.width, request.height), (612, 792));
    assert_eq!(request.background, 0xffff_ffff);
    assert_eq!(request.flags, 0x801);
    assert_eq!((request.start_x, request.start_y, request.rotate), (0, 0, 0));
    let request = page.render(single(150.0));
    let scale = 150.0f32 / 72.0;
    assert_eq!(request.width, (612.0 * scale).round() as i32);
    assert_eq!(request.height, (792.0 * scale).round() as i32);
    assert_eq!((request.width, request.height), (1275, 1650));
    let request = page.render(single(f32::NAN));
    assert_eq!((request.width, request.height), (0, 0));
}

#[test]
fn uris_are_read() {
    assert_eq!(read_uri_path(&reply(b"https://a.b/\0")).as_deref(), Some("https://a.b/"));
    // Stray NULs at either end are no part of the URI; others are.
    assert_eq!(read_uri_path(&reply(b"\0\0x\0y\0\0\0")).as_deref(), Some("x\0y"));
}

#[test]
fn uris_need_not_be_ascii() {
    assert_eq!(
        read_uri_path(&reply("h\u{e9}\u{20ac}\0".as_bytes())).as_deref(),
        Some("h\u{e9}\u{20ac}")
    );
    assert_eq!(read_uri_path(&reply(b"a\xffb\0")).as_deref(), Some("a\u{fffd}b"));
}

#[test]
fn actions_without_uris_are_none() {
    assert_eq!(uri_buffer_len(0), None);
    assert_eq!(uri_buffer_len(1), None);
    assert_eq!(uri_buffer_len(2), Some(2));
    assert_eq!(read_uri_path(&reply(b"")), None);
    assert_eq!(read_uri_path(&reply(b"\0")), None);
    assert_eq!(read_uri_path(&reply(b"\0\0\0\0")), None);
    let mut unwritten = reply(b"abc\0");
    unwritten.written = 1;
    assert_eq!(read_uri_path(&unwritten), None);
}

#[test]
fn reported_lengths_are_held_to_the_buffer() {
    let mut long = reply(b"abcd");
    long.written = 100;
    assert_eq!(read_uri_path(&long).as_deref(), Some("abcd"));
    let mut short = reply(b"abcd\0");
    short.written = 3;
    assert_eq!(read_uri_path(&short).as_deref(), Some("ab"));
}

#[test]
fn text_is_trimmed_of_nuls() {
    assert_eq!(uri_from_text("\0a b\0").as_deref(), Some("a b"));
    assert_eq!(uri_from_text(" a ").as_deref(), Some(" a "));
    assert_eq!(uri_from_text(""), None);
    assert_eq!(uri_from_text("\0"), None);
}

#[test]
fn quads_are_boxed() {
    let bounds = quad_bounds(&QuadPoints {
        x1: single(3.0),
        y1: single(9.0),
        x2: single(1.0),
        y2: single(-2.0),
        x3: single(f32::NAN),
        y3: single(4.0),
        x4: single(2.0),
        y4: single(5.0),
    });
    assert_eq!(edges(&bounds), [1.0, 9.0, 3.0, -2.0]);
}

#[test]
fn links_cover_their_lines() {
    let annot = |action, quads, ok| {
        Some(LinkAnnot {
            action,
            quads,
            rect: Answer {
                ok,
                value: rect(0.0, 100.0, 100.0, 0.0),
            },
        })
    };
    let page = page(
        0,
        vec![
            // Two lines, and a quadrilateral that cannot be read.
            annot(
                Some(reply(b"u:1\0")),
                vec![
                    quad(1, 50.0, 80.0, 100.0, 90.0),
                    quad(0, 7.0, 7.0, 7.0, 7.0),
                    quad(1, 0.0, 60.0, 40.0, 70.0),
                ],
                1,
            ),
            None,
            // No action, an action that is not a URI, and an empty URI.
            annot(None, vec![quad(1, 1.0, 1.0, 2.0, 2.0)], 1),
            annot(Some(reply(b"")), vec![quad(1, 1.0, 1.0, 2.0, 2.0)], 1),
            annot(Some(reply(b"\0\0")), vec![quad(1, 1.0, 1.0, 2.0, 2.0)], 1),
            // The rectangle where there are no lines, if it can be read.
            annot(Some(reply(b"u:2\0")), vec![quad(0, 7.0, 7.0, 7.0, 7.0)], 1),
            annot(Some(reply(b"u:3\0")), Vec::new(), 0),
        ],
    );
    let areas = page.link_areas();
    let found: Vec<([f32; 4], &str)> = areas
        .iter()
        .map(|area| (edges(&area.page_bounds), area.uri.as_str()))
        .collect();
    assert_eq!(
        found,
        vec![
            ([50.0, 90.0, 100.0, 80.0], "u:1"),
            ([0.0, 70.0, 40.0, 60.0], "u:1"),
            ([0.0, 100.0, 100.0, 0.0], "u:2"),
        ]
    );
    let corners: Vec<(DevicePoint, DevicePoint)> = areas
        .iter()
        .map(|area| {
            let at = |x: Single, y: Single| DevicePoint {
                x: (number(x) * 1000.0) as i32,
                y: 792000 - (number(y) * 1000.0) as i32,
            };
            (
                at(area.page_bounds.left, area.page_bounds.bottom),
                at(area.page_bounds.right, area.page_bounds.top),
            )
        })
        .collect();
    let links = Page::links(&areas, &corners);
    let found: Vec<([f32; 4], &str)> = links
        .iter()
        .map(|link| (edges(&link.rect), link.uri.as_str()))
        .collect();
    assert_eq!(
        found,
        vec![
            ([50.0, 702.0, 100.0, 712.0], "u:1"),
            ([0.0, 722.0, 40.0, 732.0], "u:1"),
            ([0.0, 692.0, 100.0, 792.0], "u:2"),
        ]
    );
}

#[test]
fn a_page_without_links() {
    assert!(page(0, Vec::new()).link_areas().is_empty());
    assert!(Page::links(&Vec::new(), &Vec::new()).is_empty());
}
