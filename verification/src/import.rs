//! Decoding an image file's bytes for import: the file size limit, the
//! decoder's limits and the canvas limits read from the header before any
//! pixel is decoded, the pixel budget shared by the images of one project,
//! and the decode itself.
use vstd::prelude::*;

use crate::document::{SizeError, MAX_SIDE};
use crate::project::{charge_pixels, charged, ProjectError};

verus! {

/// Largest accepted image file, in bytes.
pub const MAX_ASSET: u64 = 536_870_912;

/// Most bytes the decoder may allocate: eight for each pixel of the budget.
pub const MAX_DECODE_BYTES: u64 = 800_000_000;

/// Why an image could not be imported.
#[derive(Clone, Copy, Debug, PartialEq, Eq)]
pub enum ImportError {
    /// The file is longer than `MAX_ASSET` bytes.
    TooLarge,
    /// The bytes are no image the decoder reads, or decoding them failed.
    Undecodable,
    /// The decoder's limits refuse the size in the image's header.
    OverLimit,
    /// The size in the image's header is refused.
    Size(SizeError),
    /// The image would take the images read so far past `MAX_PIXELS`.
    PixelBudget,
}

/// The message shown for a refused import.
pub open spec fn import_text(e: ImportError) -> Seq<char> {
    match e {
        ImportError::TooLarge => "Image file is too large"@,
        ImportError::Undecodable => "The file is not an image that can be read"@,
        ImportError::OverLimit => "Image size exceeds limit"@,
        ImportError::Size(e) => crate::document::size_text(e),
        ImportError::PixelBudget => "Project exceeds 100 megapixels of source images"@,
    }
}

impl ImportError {
    /// The message shown for the error.
    pub fn message(&self) -> (text: &'static str)
        ensures
            text@ == import_text(*self),
    {
        match self {
            ImportError::TooLarge => "Image file is too large",
            ImportError::Undecodable => "The file is not an image that can be read",
            ImportError::OverLimit => "Image size exceeds limit",
            ImportError::Size(e) => e.message(),
            ImportError::PixelBudget => "Project exceeds 100 megapixels of source images",
        }
    }
}

/// What reading the header of an image file gives.
#[derive(Clone, Copy, Debug, PartialEq, Eq)]
pub enum Header {
    /// The width and height that the header gives.
    Size(u32, u32),
    /// The decoder's limits refuse that size.
    OverLimit,
    /// No format is recognized or the header cannot be read.
    Unreadable,
}

/// What the header of the image file `bytes` gives when read under decoding
/// limits of `max_side` pixels a side and `max_alloc` bytes.
pub uninterp spec fn header_read(bytes: Seq<u8>, max_side: u32, max_alloc: u64) -> Header;

/// The image that the file `bytes` decodes to, as width, height and 8-bit
/// RGBA pixels row by row after the orientation its metadata records, when
/// decoding succeeds with sides of at most `max_side` pixels and at most
/// `max_alloc` bytes allocated.
pub uninterp spec fn decoded(bytes: Seq<u8>, max_side: u32, max_alloc: u64) -> Option<(u32, u32, Seq<u8>)>;

/// Read the header of the image file `bytes` with `image::ImageReader`
/// (format guessed from the content with `with_guessed_format`) under
/// `image::Limits` of `max_side` pixels a side and `max_alloc` bytes, then
/// `into_dimensions`. An `ImageError::Limits` becomes `OverLimit`, any other
/// failure `Unreadable`. Claimed: the result is `header_read` of the
/// arguments; nothing is decoded.
#[verifier::external_body]
fn read_header(bytes: &[u8], max_side: u32, max_alloc: u64) -> (header: Header)
    ensures
        header == header_read(bytes@, max_side, max_alloc),
{
    let mut reader = match image::ImageReader::new(std::io::Cursor::new(bytes)).with_guessed_format() {
        Ok(reader) => reader,
        Err(_) => return Header::Unreadable,
    };
    let mut limits = image::Limits::default();
    limits.max_image_width = Some(max_side);
    limits.max_image_height = Some(max_side);
    limits.max_alloc = Some(max_alloc);
    reader.limits(limits);
    match reader.into_dimensions() {
        Ok((width, height)) => Header::Size(width, height),
        Err(image::ImageError::Limits(_)) => Header::OverLimit,
        Err(_) => Header::Unreadable,
    }
}

/// Decode the image file `bytes` with `image::ImageReader` (format guessed
/// from the content) under decoding limits of `max_side` pixels a side and
/// `max_alloc` bytes, apply the orientation its metadata records
/// (`DynamicImage::apply_orientation`) and convert it to 8-bit RGBA
/// (`into_rgba8`, `into_raw`). Claimed: the result is `decoded` of the
/// arguments, and an RGBA buffer holds four bytes for each pixel.
#[verifier::external_body]
fn decode_rgba(bytes: &[u8], max_side: u32, max_alloc: u64) -> (image: Option<(u32, u32, Vec<u8>)>)
    ensures
        match image {
            Some((w, h, px)) => decoded(bytes@, max_side, max_alloc) == Some((w, h, px@)) && px@.len() == 4 * w * h,
            None => decoded(bytes@, max_side, max_alloc) is None,
        },
{
    let mut reader = image::ImageReader::new(std::io::Cursor::new(bytes)).with_guessed_format().ok()?;
    let mut limits = image::Limits::default();
    limits.max_image_width = Some(max_side);
    limits.max_image_height = Some(max_side);
    limits.max_alloc = Some(max_alloc);
    reader.limits(limits);
    let mut decoder = reader.into_decoder().ok()?;
    let orientation = image::ImageDecoder::orientation(&mut decoder).ok()?;
    let mut decoded = image::DynamicImage::from_decoder(decoder).ok()?;
    decoded.apply_orientation(orientation);
    let rgba = decoded.into_rgba8();
    Some((rgba.width(), rgba.height(), rgba.into_raw()))
}

/// Import the image file `bytes` when `used` pixels of the project's budget
/// are taken by images read before it. The file size is checked first, then
/// the size in its header and the budget, and only then are the pixels
/// decoded. The result is the image's width, height and RGBA pixels, and the
/// pixels used with it.
pub fn import_image(bytes: &[u8], used: u64) -> (result: Result<(u32, u32, Vec<u8>, u64), ImportError>)
    ensures
        bytes@.len() > MAX_ASSET <==> result == Err::<(u32, u32, Vec<u8>, u64), ImportError>(ImportError::TooLarge),
        bytes@.len() <= MAX_ASSET ==> match header_read(bytes@, MAX_SIDE, MAX_DECODE_BYTES) {
            Header::Unreadable => result == Err::<(u32, u32, Vec<u8>, u64), ImportError>(ImportError::Undecodable),
            Header::OverLimit => result == Err::<(u32, u32, Vec<u8>, u64), ImportError>(ImportError::OverLimit),
            Header::Size(w, h) => match charged(used, w, h) {
                Err(ProjectError::Size(e)) => result == Err::<(u32, u32, Vec<u8>, u64), ImportError>(
                    ImportError::Size(e),
                ),
                Err(_) => result == Err::<(u32, u32, Vec<u8>, u64), ImportError>(ImportError::PixelBudget),
                Ok(total) => match decoded(bytes@, MAX_SIDE, MAX_DECODE_BYTES) {
                    None => result == Err::<(u32, u32, Vec<u8>, u64), ImportError>(ImportError::Undecodable),
                    Some((dw, dh, px)) => result matches Ok((rw, rh, rpx, rused)) && rw == dw && rh == dh
                        && rpx@ == px && rused == total && px.len() == 4 * dw * dh,
                },
            },
        },
{
    let length = bytes.len();
    if length as u64 > MAX_ASSET {
        return Err(ImportError::TooLarge);
    }
    let (width, height) = match read_header(bytes, MAX_SIDE, MAX_DECODE_BYTES) {
        Header::Unreadable => return Err(ImportError::Undecodable),
        Header::OverLimit => return Err(ImportError::OverLimit),
        Header::Size(width, height) => (width, height),
    };
    let total = match charge_pixels(used, width, height) {
        Err(ProjectError::Size(e)) => return Err(ImportError::Size(e)),
        Err(_) => return Err(ImportError::PixelBudget),
        Ok(total) => total,
    };
    match decode_rgba(bytes, MAX_SIDE, MAX_DECODE_BYTES) {
        None => Err(ImportError::Undecodable),
        Some((w, h, pixels)) => Ok((w, h, pixels, total)),
    }
}

} // verus!
