//! Page-level content extraction for PDF pages.
//!
//! The PDF engine answers queries about a page; this library decides what to
//! ask, and computes the page's image boxes, filled paths, vector paths, links
//! and viewport coordinates from the answers. Coordinates are single precision
//! numbers held by their bits (`single::Single`).

pub mod color;
pub mod filled;
pub mod geometry;
pub mod link;
pub mod object;
pub mod page;
pub mod path;
pub mod rounding;
pub mod single;

pub use color::{Answer, Channels, Color};
pub use geometry::{DevicePoint, Matrix, RectF, ViewportTransform};
pub use link::{LinkAnnot, LinkArea, PdfLink, QuadPoints, UriReply};
pub use object::{DrawMode, ImageBounds, PageObject, Point, RawSegment, SizeLimits};
pub use page::{DeviceRequest, Page, PdfiumError, RenderRequest};
pub use path::{PathObject, PathSegment, SegmentKind};
pub use single::Single;
