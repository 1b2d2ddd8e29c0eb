//! URI hyperlink annotations.

use crate::color::Answer;
use crate::geometry;
use crate::geometry::{DevicePoint, RectF};
use crate::single;
use crate::single::Single;
use vstd::prelude::*;

verus! {

/// A URI hyperlink annotation on a page. `rect` is in viewport space, so that
/// the URI can be assigned to the text that it overlaps.
#[derive(Clone, Debug)]
pub struct PdfLink {
    pub rect: RectF,
    pub uri: String,
}

/// The four corners of a quadrilateral in page space.
#[derive(Clone, Copy, Debug, PartialEq, Eq, Structural)]
pub struct QuadPoints {
    pub x1: Single,
    pub y1: Single,
    pub x2: Single,
    pub y2: Single,
    pub x3: Single,
    pub y3: Single,
    pub x4: Single,
    pub y4: Single,
}

/// What the engine says of the URI of a link's action: the number of bytes
/// that it needs, and, if it was asked for them, the buffer that it filled
/// and the number of bytes that it wrote, the closing NUL included.
#[derive(Debug)]
pub struct UriReply {
    pub needed: usize,
    pub buffer: Vec<u8>,
    pub written: usize,
}

/// A link annotation as the engine reports it. `action` is `None` where the
/// link has none.
#[derive(Debug)]
pub struct LinkAnnot {
    pub action: Option<UriReply>,
    pub quads: Vec<Answer<QuadPoints>>,
    pub rect: Answer<RectF>,
}

/// A part of a page that a link covers, in page space.
#[derive(Debug)]
pub struct LinkArea {
    pub page_bounds: RectF,
    pub uri: String,
}

/// The text that a byte string reads as, where each part that is not UTF-8
/// reads as the replacement character.
pub uninterp spec fn lossy_text(bytes: Seq<u8>) -> Seq<char>;

/// `String::from_utf8_lossy`: the text of a byte string. Of bytes that are
/// UTF-8 it is the text that they encode; how many replacement characters
/// stand for other bytes is left unsaid.
#[verifier::external_body]
fn decode_lossy(bytes: &[u8]) -> (text: String)
    ensures
        text@ == lossy_text(bytes@),
        vstd::utf8::valid_utf8(bytes@) ==> text@ == vstd::utf8::decode_utf8(bytes@),
{
    String::from_utf8_lossy(bytes).into_owned()
}

/// The text without the NUL characters at its ends.
pub open spec fn trimmed(text: Seq<char>) -> Seq<char>
    decreases text.len(),
{
    if text.len() > 0 && text.first() == '\0' {
        trimmed(text.drop_first())
    } else if text.len() > 0 && text.last() == '\0' {
        trimmed(text.drop_last())
    } else {
        text
    }
}

/// The URI that the text of an action holds, if any.
pub open spec fn uri_in(text: Seq<char>) -> Option<Seq<char>> {
    if trimmed(text).len() == 0 {
        None
    } else {
        Some(trimmed(text))
    }
}

/// Whether a string that may be missing is a text that may be missing.
pub open spec fn reads_as(string: Option<String>, text: Option<Seq<char>>) -> bool {
    match (string, text) {
        (Some(found), Some(expected)) => found@ == expected,
        (None, None) => true,
        _ => false,
    }
}

/// The bytes of a reply without the closing NUL, if it holds any.
pub open spec fn uri_bytes(reply: UriReply) -> Option<Seq<u8>> {
    if reply.needed < 2 || reply.written < 2 {
        None
    } else {
        Some(
            reply.buffer@.take(
                vstd::math::min(reply.written - 1, reply.buffer@.len() as int),
            ),
        )
    }
}

/// The URI that a reply holds, if any.
pub open spec fn uri_of(reply: UriReply) -> Option<Seq<char>> {
    match uri_bytes(reply) {
        Some(bytes) => uri_in(lossy_text(bytes)),
        None => None,
    }
}

/// Whether a reply of bytes that are UTF-8 reads as the text that they encode.
pub open spec fn reads_plainly(reply: UriReply) -> bool {
    uri_bytes(reply) matches Some(bytes) ==> vstd::utf8::valid_utf8(bytes) ==> uri_of(reply)
        == uri_in(vstd::utf8::decode_utf8(bytes))
}

/// Whether the action of a link, if it has one, reads plainly.
pub open spec fn link_reads_plainly(link: Option<LinkAnnot>) -> bool {
    link matches Some(annot) ==> annot.action matches Some(reply) ==> reads_plainly(reply)
}

/// The box around a quadrilateral.
pub open spec fn quad_box(quad: QuadPoints) -> RectF {
    RectF {
        left: quad.x1.lesser(quad.x2).lesser(quad.x3).lesser(quad.x4),
        top: quad.y1.greater(quad.y2).greater(quad.y3).greater(quad.y4),
        right: quad.x1.greater(quad.x2).greater(quad.x3).greater(quad.x4),
        bottom: quad.y1.lesser(quad.y2).lesser(quad.y3).lesser(quad.y4),
    }
}

/// The boxes of the quadrilaterals that can be read, in their order.
pub open spec fn quad_boxes(quads: Seq<Answer<QuadPoints>>) -> Seq<RectF>
    decreases quads.len(),
{
    if quads.len() == 0 {
        Seq::empty()
    } else {
        let before = quad_boxes(quads.drop_last());
        if quads.last().given() {
            before.push(quad_box(quads.last().value))
        } else {
            before
        }
    }
}

/// The boxes that a link covers: those of its quadrilaterals, or, if none can
/// be read, that of the whole annotation.
pub open spec fn covered(link: LinkAnnot) -> Seq<RectF> {
    let boxes = quad_boxes(link.quads@);
    if boxes.len() > 0 {
        boxes
    } else if link.rect.given() {
        seq![link.rect.value]
    } else {
        Seq::empty()
    }
}

/// The boxes that a link covers, each with its URI. A link without a URI
/// covers none.
pub open spec fn areas_of(link: Option<LinkAnnot>) -> Seq<(RectF, Seq<char>)> {
    match link {
        Some(annot) => match annot.action {
            Some(reply) => match uri_of(reply) {
                Some(uri) => covered(annot).map_values(|area: RectF| (area, uri)),
                None => Seq::empty(),
            },
            None => Seq::empty(),
        },
        None => Seq::empty(),
    }
}

/// The boxes that links cover, each with its URI, in the order of the links.
pub open spec fn areas_among(links: Seq<Option<LinkAnnot>>) -> Seq<(RectF, Seq<char>)>
    decreases links.len(),
{
    if links.len() == 0 {
        Seq::empty()
    } else {
        areas_among(links.drop_last()) + areas_of(links.last())
    }
}

/// What link areas hold.
pub open spec fn area_views(areas: Seq<LinkArea>) -> Seq<(RectF, Seq<char>)> {
    areas.map_values(|area: LinkArea| (area.page_bounds, area.uri@))
}

/// The text without the NUL characters at its ends.
fn trim_nuls(text: &str) -> (kept: String)
    ensures
        kept@ == trimmed(text@),
{
    let end: usize = text.unicode_len();
    let mut low: usize = 0;
    proof {
        assert(text@.subrange(0, end as int) =~= text@);
    }
    while low < end && text.get_char(low) == '\0'
        invariant
            low <= end == text@.len(),
            trimmed(text@.subrange(low as int, end as int)) == trimmed(text@),
        decreases end - low,
    {
        proof {
            let rest = text@.subrange(low as int, end as int);
            assert(rest.drop_first() =~= text@.subrange(low + 1, end as int));
        }
        low = low + 1;
    }
    let mut high: usize = end;
    while low < high && text.get_char(high - 1) == '\0'
        invariant
            low <= high <= end == text@.len(),
            low < end ==> text@[low as int] != '\0',
            trimmed(text@.subrange(low as int, high as int)) == trimmed(text@),
        decreases high - low,
    {
        proof {
            let rest = text@.subrange(low as int, high as int);
            assert(rest.drop_last() =~= text@.subrange(low as int, high - 1));
        }
        high = high - 1;
    }
    text.substring_char(low, high).to_owned()
}

/// The URI that the text of an action holds. `None` where nothing but NUL
/// characters is left.
pub fn uri_from_text(text: &str) -> (uri: Option<String>)
    ensures
        reads_as(uri, uri_in(text@)),
{
    let uri: String = trim_nuls(text);
    if uri.as_str().is_empty() {
        None
    } else {
        Some(uri)
    }
}

/// The size of the buffer to hand to the engine for a URI of `needed` bytes.
/// `None` for an action that is not a URI.
pub fn uri_buffer_len(needed: usize) -> (len: Option<usize>)
    ensures
        len == (if needed < 2 {
            None
        } else {
            Some(needed)
        }),
{
    if needed < 2 {
        None
    } else {
        Some(needed)
    }
}

/// The URI of a link's action. `None` for an action that is not a URI, and for
/// an empty URI.
pub fn read_uri_path(reply: &UriReply) -> (uri: Option<String>)
    ensures
        reads_as(uri, uri_of(*reply)),
        reads_plainly(*reply),
{
    if uri_buffer_len(reply.needed).is_none() {
        return None;
    }
    if reply.written < 2 {
        return None;
    }
    let end: usize = if reply.written - 1 < reply.buffer.len() {
        reply.written - 1
    } else {
        reply.buffer.len()
    };
    let bytes: &[u8] = vstd::slice::slice_subrange(reply.buffer.as_slice(), 0, end);
    proof {
        assert(bytes@ =~= reply.buffer@.take(end as int));
    }
    uri_from_text(decode_lossy(bytes).as_str())
}

/// The box around a quadrilateral.
pub fn quad_bounds(quad: &QuadPoints) -> (area: RectF)
    ensures
        area == quad_box(*quad),
{
    RectF {
        left: quad.x1.min(quad.x2).min(quad.x3).min(quad.x4),
        top: quad.y1.max(quad.y2).max(quad.y3).max(quad.y4),
        right: quad.x1.max(quad.x2).max(quad.x3).max(quad.x4),
        bottom: quad.y1.min(quad.y2).min(quad.y3).min(quad.y4),
    }
}

/// The boxes that a link covers.
///
/// A link that wraps across lines has one quadrilateral per line, each tight
/// around its text, while the one rectangle of the annotation would take in
/// the words between the lines: it is used only where there are no
/// quadrilaterals.
pub fn link_boxes(link: &LinkAnnot) -> (boxes: Vec<RectF>)
    ensures
        boxes@ == covered(*link),
{
    let mut boxes: Vec<RectF> = Vec::new();
    for i in 0..link.quads.len()
        invariant
            boxes@ == quad_boxes(link.quads@.take(i as int)),
    {
        proof {
            assert(link.quads@.take(i + 1).drop_last() =~= link.quads@.take(i as int));
        }
        if link.quads[i].ok != 0 {
            boxes.push(quad_bounds(&link.quads[i].value));
        }
    }
    proof {
        assert(link.quads@.take(link.quads@.len() as int) =~= link.quads@);
    }
    if boxes.len() == 0 && link.rect.ok != 0 {
        boxes.push(link.rect.value);
    }
    boxes
}

/// Collect the boxes that a link covers, each with the link's URI.
fn collect_areas(link: &LinkAnnot, uri: &String, out: &mut Vec<LinkArea>)
    ensures
        area_views(final(out)@) == area_views(old(out)@) + covered(*link).map_values(
            |area: RectF| (area, uri@),
        ),
{
    let boxes: Vec<RectF> = link_boxes(link);
    let ghost added = covered(*link).map_values(|area: RectF| (area, uri@));
    for i in 0..boxes.len()
        invariant
            boxes@ == covered(*link),
            added == covered(*link).map_values(|area: RectF| (area, uri@)),
            area_views(out@) == area_views(old(out)@) + added.take(i as int),
    {
        let ghost before = area_views(out@);
        out.push(LinkArea { page_bounds: boxes[i], uri: uri.clone() });
        proof {
            assert(area_views(out@) =~= before.push((boxes@[i as int], uri@)));
            assert(added.take(i + 1) =~= added.take(i as int).push(added[i as int]));
        }
    }
    proof {
        assert(added.take(added.len() as int) =~= added);
    }
}

/// The boxes that the links of a page cover, each with its URI.
pub fn collect_link_areas(links: &Vec<Option<LinkAnnot>>) -> (areas: Vec<LinkArea>)
    ensures
        area_views(areas@) == areas_among(links@),
        forall|i: int| 0 <= i < links@.len() ==> link_reads_plainly(#[trigger] links@[i]),
{
    let mut areas: Vec<LinkArea> = Vec::new();
    for i in 0..links.len()
        invariant
            area_views(areas@) == areas_among(links@.take(i as int)),
            forall|j: int| 0 <= j < i ==> link_reads_plainly(#[trigger] links@[j]),
    {
        proof {
            let next = links@.take(i + 1);
            assert(next.drop_last() =~= links@.take(i as int));
            assert(next.last() == links@[i as int]);
        }
        if let Some(link) = &links[i] {
            if let Some(reply) = &link.action {
                if let Some(uri) = read_uri_path(reply) {
                    collect_areas(link, &uri, &mut areas);
                }
            }
        }
    }
    proof {
        assert(links@.take(links@.len() as int) =~= links@);
    }
    areas
}

/// What links hold.
pub open spec fn link_views(links: Seq<PdfLink>) -> Seq<(RectF, Seq<char>)> {
    links.map_values(|link: PdfLink| (link.rect, link.uri@))
}

/// The links whose areas have come to lie between these corners.
pub open spec fn placed_links(
    areas: Seq<(RectF, Seq<char>)>,
    corners: Seq<(DevicePoint, DevicePoint)>,
) -> Seq<(RectF, Seq<char>)> {
    Seq::new(
        areas.len(),
        |i: int|
            (
                RectF::spanned(corners[i].0.in_viewport(), corners[i].1.in_viewport()),
                areas[i].1,
            ),
    )
}

/// The links of areas whose lower left and upper right corners were found to
/// lie at these points of the device.
pub fn place_links(areas: &Vec<LinkArea>, corners: &Vec<(DevicePoint, DevicePoint)>) -> (links:
    Vec<PdfLink>)
    requires
        areas@.len() == corners@.len(),
    ensures
        link_views(links@) == placed_links(area_views(areas@), corners@),
{
    let mut links: Vec<PdfLink> = Vec::new();
    let ghost all = placed_links(area_views(areas@), corners@);
    for i in 0..areas.len()
        invariant
            areas@.len() == corners@.len(),
            all == placed_links(area_views(areas@), corners@),
            link_views(links@) == all.take(i as int),
    {
        let ghost before = link_views(links@);
        let rect: RectF = RectF::span(corners[i].0.to_viewport(), corners[i].1.to_viewport());
        links.push(PdfLink { rect, uri: areas[i].uri.clone() });
        proof {
            assert(link_views(links@) =~= before.push((rect, areas@[i as int].uri@)));
            assert(all.take(i + 1) =~= all.take(i as int).push(all[i as int]));
        }
    }
    proof {
        assert(all.take(all.len() as int) =~= all);
    }
    links
}

/// A trimmed text neither starts nor ends with a NUL character, and trimming
/// it again changes nothing.
pub proof fn lemma_trimmed_ends(text: Seq<char>)
    ensures
        ({
            let kept = trimmed(text);
            &&& kept.len() > 0 ==> kept.first() != '\0' && kept.last() != '\0'
            &&& trimmed(kept) == kept
            &&& kept.len() <= text.len()
        }),
    decreases text.len(),
{
    if text.len() > 0 && text.first() == '\0' {
        lemma_trimmed_ends(text.drop_first());
    } else if text.len() > 0 && text.last() == '\0' {
        lemma_trimmed_ends(text.drop_last());
    }
}

/// A URI that is written as UTF-8 with a closing NUL reads back as it was, and
/// its link covers its boxes with that URI. Every reply that `read_uri_path`
/// has seen reads plainly.
pub proof fn lemma_uri_reads_back(link: LinkAnnot, reply: UriReply, text: Seq<char>)
    requires
        link.action == Some(reply),
        reads_plainly(reply),
        text.len() > 0,
        text.first() != '\0',
        text.last() != '\0',
        reply.buffer@ == vstd::utf8::encode_utf8(text).push(0),
        reply.needed == reply.buffer@.len(),
        reply.written == reply.buffer@.len(),
    ensures
        uri_of(reply) == Some(text),
        areas_of(Some(link)) == covered(link).map_values(|area: RectF| (area, text)),
{
    let bytes = vstd::utf8::encode_utf8(text);
    vstd::utf8::encode_utf8_valid_utf8(text);
    vstd::utf8::encode_utf8_decode_utf8(text);
    vstd::utf8::encode_utf8_first_scalar(text);
    assert(bytes.len() > 0) by {
        if bytes.len() == 0 {
            assert(vstd::utf8::decode_utf8(bytes) =~= Seq::<char>::empty());
        }
    }
    assert(reply.buffer@.take(bytes.len() as int) =~= bytes);
}

/// Whether every area has a URI, which is not empty and neither starts nor
/// ends with a NUL character.
pub open spec fn all_have_uris(areas: Seq<(RectF, Seq<char>)>) -> bool {
    forall|i: int|
        0 <= i < areas.len() ==> {
            let uri = (#[trigger] areas[i]).1;
            uri.len() > 0 && uri.first() != '\0' && uri.last() != '\0'
        }
}

/// Every area of a link has a URI, which is not empty and neither starts nor
/// ends with a NUL character.
pub proof fn lemma_areas_have_uris(links: Seq<Option<LinkAnnot>>)
    ensures
        all_have_uris(areas_among(links)),
    decreases links.len(),
{
    if links.len() > 0 {
        let before = areas_among(links.drop_last());
        let own = areas_of(links.last());
        lemma_areas_have_uris(links.drop_last());
        assert(all_have_uris(own)) by {
            if let Some(annot) = links.last() {
                if let Some(reply) = annot.action {
                    if let Some(bytes) = uri_bytes(reply) {
                        lemma_trimmed_ends(lossy_text(bytes));
                    }
                }
            }
        }
        assert forall|i: int| 0 <= i < (before + own).len() implies {
            let uri = (#[trigger] (before + own)[i]).1;
            uri.len() > 0 && uri.first() != '\0' && uri.last() != '\0'
        } by {
            if i < before.len() {
                assert((before + own)[i] == before[i]);
            } else {
                assert((before + own)[i] == own[i - before.len()]);
            }
        }
    }
}

/// The areas of links are those of the first of them, followed by those of
/// the rest.
pub proof fn lemma_areas_concat(first: Seq<Option<LinkAnnot>>, second: Seq<Option<LinkAnnot>>)
    ensures
        areas_among(first + second) == areas_among(first) + areas_among(second),
    decreases second.len(),
{
    if second.len() == 0 {
        assert(first + second =~= first);
        assert(areas_among(first) + areas_among(second) =~= areas_among(first));
    } else {
        lemma_areas_concat(first, second.drop_last());
        assert((first + second).drop_last() =~= first + second.drop_last());
        assert((first + second).last() == second.last());
        let rest = areas_among(second.drop_last());
        let own = areas_of(second.last());
        assert((areas_among(first) + rest) + own =~= areas_among(first) + (rest + own));
    }
}

/// Where a quadrilateral of a link can be read, the rectangle of its
/// annotation does not matter.
pub proof fn lemma_quads_are_preferred(link: LinkAnnot, other: LinkAnnot, quad: int)
    requires
        link.quads@ == other.quads@,
        0 <= quad < link.quads@.len(),
        link.quads@[quad].given(),
    ensures
        covered(link) == covered(other),
        covered(link) == quad_boxes(link.quads@),
{
    lemma_quad_is_boxed(link.quads@, quad);
}

/// Where no quadrilateral of a link can be read, it covers the rectangle of
/// its annotation, if that can be read.
pub proof fn lemma_rectangle_is_the_fallback(link: LinkAnnot)
    requires
        forall|i: int| 0 <= i < link.quads@.len() ==> !(#[trigger] link.quads@[i]).given(),
    ensures
        covered(link) == (if link.rect.given() {
            seq![link.rect.value]
        } else {
            Seq::empty()
        }),
{
    lemma_no_quad_is_boxed(link.quads@);
}

/// Quadrilaterals that cannot be read have no boxes.
proof fn lemma_no_quad_is_boxed(quads: Seq<Answer<QuadPoints>>)
    requires
        forall|i: int| 0 <= i < quads.len() ==> !(#[trigger] quads[i]).given(),
    ensures
        quad_boxes(quads).len() == 0,
    decreases quads.len(),
{
    if quads.len() > 0 {
        let before = quads.drop_last();
        assert forall|i: int| 0 <= i < before.len() implies !(#[trigger] before[i]).given() by {
            assert(before[i] == quads[i]);
        }
        lemma_no_quad_is_boxed(before);
    }
}

/// A link without an action, or with one that is not a URI, covers nothing.
pub proof fn lemma_only_uris_are_links(annot: LinkAnnot)
    requires
        annot.action matches Some(reply) ==> reply.needed < 2,
    ensures
        areas_of(Some(annot)).len() == 0,
{
}

/// A quadrilateral that can be read has a box.
proof fn lemma_quad_is_boxed(quads: Seq<Answer<QuadPoints>>, quad: int)
    requires
        0 <= quad < quads.len(),
        quads[quad].given(),
    ensures
        quad_boxes(quads).len() > 0,
    decreases quads.len(),
{
    if quad < quads.len() - 1 {
        lemma_quad_is_boxed(quads.drop_last(), quad);
    }
}

/// Each area becomes one link, with its URI, in a rectangle that is not inside
/// out.
pub proof fn lemma_links_are_ordered(
    areas: Seq<(RectF, Seq<char>)>,
    corners: Seq<(DevicePoint, DevicePoint)>,
)
    requires
        areas.len() == corners.len(),
    ensures
        placed_links(areas, corners).len() == areas.len(),
        forall|i: int|
            0 <= i < areas.len() ==> {
                let link = #[trigger] placed_links(areas, corners)[i];
                &&& link.1 == areas[i].1
                &&& !link.0.right.lt(link.0.left)
                &&& !link.0.bottom.lt(link.0.top)
            },
{
    assert forall|i: int| 0 <= i < areas.len() implies {
        let link = #[trigger] placed_links(areas, corners)[i];
        &&& link.1 == areas[i].1
        &&& !link.0.right.lt(link.0.left)
        &&& !link.0.bottom.lt(link.0.top)
    } by {
        geometry::lemma_span_holds_its_corners(
            corners[i].0.in_viewport(),
            corners[i].1.in_viewport(),
        );
    }
}

/// The box of a quadrilateral reaches from corner to corner: its sides are the
/// ends of the ranges of all four corners' coordinates, whatever their order.
pub proof fn lemma_quad_box_reaches_its_corners(quad: QuadPoints)
    ensures
        single::are_ends(
            quad_box(quad).left,
            quad_box(quad).right,
            seq![quad.x1, quad.x2, quad.x3, quad.x4],
        ),
        single::are_ends(
            quad_box(quad).bottom,
            quad_box(quad).top,
            seq![quad.y1, quad.y2, quad.y3, quad.y4],
        ),
{
    single::lemma_ends_of_four(quad.x1, quad.x2, quad.x3, quad.x4);
    single::lemma_ends_of_four(quad.y1, quad.y2, quad.y3, quad.y4);
}

/// The boxes of quadrilaterals are those of the first of them, followed by
/// those of the rest.
pub proof fn lemma_quad_boxes_concat(
    first: Seq<Answer<QuadPoints>>,
    second: Seq<Answer<QuadPoints>>,
)
    ensures
        quad_boxes(first + second) == quad_boxes(first) + quad_boxes(second),
    decreases second.len(),
{
    if second.len() == 0 {
        assert(first + second =~= first);
        assert(quad_boxes(first) + quad_boxes(second) =~= quad_boxes(first));
    } else {
        lemma_quad_boxes_concat(first, second.drop_last());
        assert((first + second).drop_last() =~= first + second.drop_last());
        assert((first + second).last() == second.last());
    }
}

/// A quadrilateral has one box where it can be read, and none where it cannot.
pub proof fn lemma_quad_boxes_of_one(quad: Answer<QuadPoints>)
    ensures
        quad_boxes(Seq::empty()).len() == 0,
        quad.ok == 0 ==> quad_boxes(seq![quad]).len() == 0,
        quad.ok != 0 ==> quad_boxes(seq![quad]) == seq![quad_box(quad.value)],
{
    let one = seq![quad];
    assert(one.drop_last() =~= Seq::<Answer<QuadPoints>>::empty());
    assert(one.last() == quad);
    reveal_with_fuel(quad_boxes, 2);
    assert(Seq::<RectF>::empty().push(quad_box(quad.value)) =~= seq![quad_box(quad.value)]);
}

/// A link covers the boxes of its quadrilaterals if any can be read, and else
/// the one rectangle of its annotation, if that can be read.
pub proof fn lemma_link_covers_quads_or_rectangle(link: LinkAnnot)
    ensures
        (exists|i: int| 0 <= i < link.quads@.len() && (#[trigger] link.quads@[i]).ok != 0)
            ==> covered(link) == quad_boxes(link.quads@) && covered(link).len() > 0,
        (forall|i: int| 0 <= i < link.quads@.len() ==> (#[trigger] link.quads@[i]).ok == 0) ==> {
            &&& link.rect.ok != 0 ==> covered(link) == seq![link.rect.value]
            &&& link.rect.ok == 0 ==> covered(link).len() == 0
        },
{
    if exists|i: int| 0 <= i < link.quads@.len() && (#[trigger] link.quads@[i]).ok != 0 {
        let quad = choose|i: int| 0 <= i < link.quads@.len() && (#[trigger] link.quads@[i]).ok != 0;
        lemma_quad_is_boxed(link.quads@, quad);
    } else {
        lemma_no_quad_is_boxed(link.quads@);
    }
}

/// Trimming takes away NUL characters at the ends and nothing else: what is
/// left is the text between two places, with NUL characters only before the
/// one and after the other.
pub proof fn lemma_trimming_takes_nuls(text: Seq<char>) -> (ends: (int, int))
    ensures
        0 <= ends.0 <= ends.1 <= text.len(),
        trimmed(text) == text.subrange(ends.0, ends.1),
        forall|i: int|
            0 <= i < text.len() && !(ends.0 <= i < ends.1) ==> #[trigger] text[i] == '\0',
        ends.0 < ends.1 ==> text[ends.0] != '\0' && text[ends.1 - 1] != '\0',
    decreases text.len(),
{
    if text.len() > 0 && text.first() == '\0' {
        let rest = text.drop_first();
        let (low, high) = lemma_trimming_takes_nuls(rest);
        assert(rest.subrange(low, high) =~= text.subrange(low + 1, high + 1));
        assert forall|i: int|
            0 <= i < text.len() && !(low + 1 <= i < high + 1) implies #[trigger] text[i]
            == '\0' by {
            if i > 0 {
                assert(rest[i - 1] == text[i]);
            }
        }
        (low + 1, high + 1)
    } else if text.len() > 0 && text.last() == '\0' {
        let rest = text.drop_last();
        let (low, high) = lemma_trimming_takes_nuls(rest);
        assert(rest.subrange(low, high) =~= text.subrange(low, high));
        assert forall|i: int|
            0 <= i < text.len() && !(low <= i < high) implies #[trigger] text[i] == '\0' by {
            if i < rest.len() {
                assert(rest[i] == text[i]);
            }
        }
        (low, high)
    } else {
        assert(text.subrange(0, text.len() as int) =~= text);
        (0, text.len() as int)
    }
}

/// A text holds a URI exactly where it has a character that is not NUL, and
/// the URI is what trimming leaves.
pub proof fn lemma_text_holds_a_uri(text: Seq<char>)
    ensures
        uri_in(text) is Some <==> exists|i: int|
            0 <= i < text.len() && #[trigger] text[i] != '\0',
        uri_in(text) matches Some(uri) ==> uri == trimmed(text),
{
    let (low, high) = lemma_trimming_takes_nuls(text);
    if low < high {
        assert(text[low] != '\0');
    }
}

/// The bytes of a reply are read where the engine needs and has written at
/// least two: those in the buffer before the closing NUL.
pub proof fn lemma_reply_bytes(reply: UriReply)
    ensures
        uri_bytes(reply) is Some <==> reply.needed >= 2 && reply.written >= 2,
        uri_bytes(reply) matches Some(bytes) ==> {
            &&& bytes.len() <= reply.buffer@.len()
            &&& bytes == reply.buffer@.subrange(0, bytes.len() as int)
            &&& reply.written <= reply.buffer@.len() ==> bytes.len() == reply.written - 1
            &&& reply.written > reply.buffer@.len() ==> bytes.len() == reply.buffer@.len()
        },
{
}

/// The URI of a reply is the text of its bytes, trimmed, wherever that leaves
/// anything.
pub proof fn lemma_reply_holds_a_uri(reply: UriReply)
    ensures
        reply.needed < 2 || reply.written < 2 ==> uri_of(reply) is None,
        reply.needed >= 2 && reply.written >= 2 ==> {
            let end = if reply.written <= reply.buffer@.len() {
                reply.written - 1
            } else {
                reply.buffer@.len() as int
            };
            let text = lossy_text(reply.buffer@.subrange(0, end));
            &&& trimmed(text).len() == 0 ==> uri_of(reply) is None
            &&& trimmed(text).len() > 0 ==> uri_of(reply) == Some(trimmed(text))
        },
{
}

/// Every box that a link covers is an area with the link's URI, in their
/// order; a link that is null, has no action or no URI has no areas.
pub proof fn lemma_areas_are_covered_boxes(link: Option<LinkAnnot>)
    ensures
        link is None ==> areas_of(link).len() == 0,
        link matches Some(annot) ==> {
            &&& annot.action is None ==> areas_of(link).len() == 0
            &&& annot.action matches Some(reply) ==> {
                &&& uri_of(reply) is None ==> areas_of(link).len() == 0
                &&& uri_of(reply) matches Some(uri) ==> {
                    &&& areas_of(link).len() == covered(annot).len()
                    &&& forall|i: int|
                        0 <= i < covered(annot).len() ==> #[trigger] areas_of(link)[i] == (
                            covered(annot)[i],
                            uri,
                        )
                }
            }
        },
{
}

/// Areas are collected link by link.
pub proof fn lemma_areas_among_one(link: Option<LinkAnnot>)
    ensures
        areas_among(Seq::empty()).len() == 0,
        areas_among(seq![link]) == areas_of(link),
{
    let one = seq![link];
    let none = Seq::<Option<LinkAnnot>>::empty();
    assert(one.drop_last() =~= none);
    assert(one.last() == link);
    assert(areas_among(none) =~= Seq::empty());
    assert(Seq::<(RectF, Seq<char>)>::empty() + areas_of(link) =~= areas_of(link));
}

/// The views of link areas leave nothing out.
pub proof fn lemma_area_views_are_faithful(areas: Seq<LinkArea>, at: int)
    requires
        0 <= at < areas.len(),
    ensures
        area_views(areas).len() == areas.len(),
        area_views(areas)[at].0 == areas[at].page_bounds,
        area_views(areas)[at].1 == areas[at].uri@,
{
}

/// The views of links leave nothing out.
pub proof fn lemma_link_views_are_faithful(links: Seq<PdfLink>, at: int)
    requires
        0 <= at < links.len(),
    ensures
        link_views(links).len() == links.len(),
        link_views(links)[at].0 == links[at].rect,
        link_views(links)[at].1 == links[at].uri@,
{
}

/// A link reaches from corner to corner: its sides in the viewport are the
/// ends of the ranges of the coordinates at which its own two corners were
/// found.
pub proof fn lemma_links_reach_their_corners(
    areas: Seq<(RectF, Seq<char>)>,
    corners: Seq<(DevicePoint, DevicePoint)>,
    at: int,
)
    requires
        areas.len() == corners.len(),
        0 <= at < areas.len(),
    ensures
        ({
            let link = placed_links(areas, corners)[at];
            let (x1, y1) = corners[at].0.in_viewport();
            let (x2, y2) = corners[at].1.in_viewport();
            &&& placed_links(areas, corners).len() == areas.len()
            &&& link.1 == areas[at].1
            &&& single::are_ends(link.0.left, link.0.right, seq![x1, x2])
            &&& single::are_ends(link.0.top, link.0.bottom, seq![y1, y2])
        }),
{
    geometry::lemma_span_reaches_its_corners(
        corners[at].0.in_viewport(),
        corners[at].1.in_viewport(),
    );
}

/// A string reads as a text exactly where both are there and the same, or
/// neither is there.
pub proof fn lemma_reads_as(string: Option<String>, text: Option<Seq<char>>)
    ensures
        reads_as(string, text) ==> (string is Some <==> text is Some),
        reads_as(string, text) && string is Some ==> string->0@ == text->0,
        string is None && text is None ==> reads_as(string, text),
        string is Some && text is Some && string->0@ == text->0 ==> reads_as(string, text),
{
}

} // verus!
