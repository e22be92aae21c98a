//! Reading and writing the PNG files that the front end works on: the
//! choice of format (file content first, file extension second), decoding
//! to RGBA8 and encoding RGBA8. The codec itself is the `image` crate's.
use vstd::prelude::*;
use image::ImageFormat;
use crate::layout::{rgba_buffer_len, rgba_len_spec};

verus! {

/// The image formats the `image` crate tells apart.
#[derive(Clone, Copy, Debug, PartialEq, Eq)]
pub enum ImageKind {
    Png,
    Jpeg,
    Gif,
    WebP,
    Pnm,
    Tiff,
    Tga,
    Dds,
    Bmp,
    Ico,
    Hdr,
    OpenExr,
    Farbfeld,
    Avif,
    Qoi,
    Pcx,
    /// A format the crate may add later.
    Other,
}

#[verifier::external_type_specification]
#[verifier::external_body]
pub struct ExImageError(image::ImageError);

/// The format that `image::guess_format` reads from the leading magic bytes
/// of `bytes`, or `None` where it recognises none.
pub uninterp spec fn guessed_format(bytes: Seq<u8>) -> Option<ImageKind>;

/// The format that `ImageFormat::from_extension` gives for a file
/// extension, or `None` for an extension it does not know.
pub uninterp spec fn extension_format(ext: Seq<char>) -> Option<ImageKind>;

/// Width, height and RGBA8 pixels of the PNG image in `bytes`, or `None`
/// where the `image` crate's PNG decoder refuses them.
pub uninterp spec fn png_rgba8(bytes: Seq<u8>) -> Option<(u32, u32, Seq<u8>)>;

/// The PNG file that the `image` crate's PNG encoder writes for a `width` by
/// `height` RGBA8 image, or `None` where it refuses the image.
pub uninterp spec fn png_encoding(width: u32, height: u32, pixels: Seq<u8>) -> Option<Seq<u8>>;

/// Calls `image::guess_format` on the bytes; the result is named
/// `guessed_format` (which magic bytes mean which format is not restated).
#[verifier::external_body]
#[allow(deprecated)]
fn guess_image_format(bytes: &[u8]) -> (r: Option<ImageKind>)
    ensures
        r == guessed_format(bytes@),
{
    Some(match image::guess_format(bytes).ok()? {
        ImageFormat::Png => ImageKind::Png, ImageFormat::Jpeg => ImageKind::Jpeg,
        ImageFormat::Gif => ImageKind::Gif, ImageFormat::WebP => ImageKind::WebP,
        ImageFormat::Pnm => ImageKind::Pnm, ImageFormat::Tiff => ImageKind::Tiff,
        ImageFormat::Tga => ImageKind::Tga, ImageFormat::Dds => ImageKind::Dds,
        ImageFormat::Bmp => ImageKind::Bmp, ImageFormat::Ico => ImageKind::Ico,
        ImageFormat::Hdr => ImageKind::Hdr, ImageFormat::OpenExr => ImageKind::OpenExr,
        ImageFormat::Farbfeld => ImageKind::Farbfeld, ImageFormat::Avif => ImageKind::Avif,
        ImageFormat::Qoi => ImageKind::Qoi, ImageFormat::Pcx => ImageKind::Pcx,
        _ => ImageKind::Other,
    })
}

/// Calls `ImageFormat::from_extension` on the extension; the result is
/// named `extension_format` (the table of extensions is not restated).
#[verifier::external_body]
#[allow(deprecated)]
fn image_format_of_extension(ext: &str) -> (r: Option<ImageKind>)
    ensures
        r == extension_format(ext@),
{
    Some(match ImageFormat::from_extension(ext)? {
        ImageFormat::Png => ImageKind::Png, ImageFormat::Jpeg => ImageKind::Jpeg,
        ImageFormat::Gif => ImageKind::Gif, ImageFormat::WebP => ImageKind::WebP,
        ImageFormat::Pnm => ImageKind::Pnm, ImageFormat::Tiff => ImageKind::Tiff,
        ImageFormat::Tga => ImageKind::Tga, ImageFormat::Dds => ImageKind::Dds,
        ImageFormat::Bmp => ImageKind::Bmp, ImageFormat::Ico => ImageKind::Ico,
        ImageFormat::Hdr => ImageKind::Hdr, ImageFormat::OpenExr => ImageKind::OpenExr,
        ImageFormat::Farbfeld => ImageKind::Farbfeld, ImageFormat::Avif => ImageKind::Avif,
        ImageFormat::Qoi => ImageKind::Qoi, ImageFormat::Pcx => ImageKind::Pcx,
        _ => ImageKind::Other,
    })
}

/// Calls `image::load_from_memory_with_format` with the PNG format and
/// converts the image to RGBA8. It fails exactly where `png_rgba8` is
/// `None`; otherwise the width, height and pixels are those `png_rgba8`
/// names, and the pixel buffer holds four bytes per pixel.
#[verifier::external_body]
fn decode_png_rgba8(bytes: &[u8]) -> (r: Result<(u32, u32, Vec<u8>), image::ImageError>)
    ensures
        r is Err <==> png_rgba8(bytes@) is None,
        r matches Ok((w, h, px)) ==> png_rgba8(bytes@) == Some((w, h, px@)) && px@.len()
            == rgba_len_spec(w as int, h as int),
{
    let rgba = image::load_from_memory_with_format(bytes, ImageFormat::Png)?.to_rgba8();
    let (w, h) = rgba.dimensions();
    Ok((w, h, rgba.into_raw()))
}

/// Writes the RGBA8 image into memory with `image::codecs::png::PngEncoder`
/// (whose `write_image` panics unless the buffer holds exactly four bytes
/// per pixel). It fails exactly where `png_encoding` is `None`; otherwise
/// the bytes are those `png_encoding` names.
#[verifier::external_body]
fn encode_png_rgba8(width: u32, height: u32, pixels: &[u8]) -> (r: Result<Vec<u8>, image::ImageError>)
    requires
        pixels@.len() == rgba_len_spec(width as int, height as int),
    ensures
        r is Err <==> png_encoding(width, height, pixels@) is None,
        r matches Ok(b) ==> png_encoding(width, height, pixels@) == Some(b@),
{
    let mut out: Vec<u8> = Vec::new();
    image::ImageEncoder::write_image(
        image::codecs::png::PngEncoder::new(&mut out),
        pixels,
        width,
        height,
        image::ExtendedColorType::Rgba8,
    )?;
    Ok(out)
}

/// Why a file could not be read as a PNG image.
#[derive(Debug)]
pub enum LoadPngError {
    /// Neither its content nor its extension says PNG.
    NotPng,
    /// The PNG decoder refused it.
    Decode(image::ImageError),
}

/// Why an image could not be written as PNG.
#[derive(Debug)]
pub enum SavePngError {
    /// The pixel buffer is shorter than `width * height * 4` bytes.
    InvalidSaveBuffer,
    /// The PNG encoder refused the image.
    Encode(image::ImageError),
}

pub open spec fn extension_view(extension: Option<&str>) -> Option<Seq<char>> {
    match extension {
        Some(e) => Some(e@),
        None => None,
    }
}

/// The format a file is read as: what its leading bytes say, and where they
/// say nothing, what its (non-empty) extension says.
pub open spec fn chosen_format(extension: Option<Seq<char>>, bytes: Seq<u8>) -> Option<ImageKind> {
    match guessed_format(bytes) {
        Some(f) => Some(f),
        None => match extension {
            Some(e) => if e.len() > 0 {
                extension_format(e)
            } else {
                None
            },
            None => None,
        },
    }
}

/// Whether a file is read as PNG, given the format its content shows
/// (`by_content`) and, for a file whose content shows none, the format its
/// extension names (`by_extension`): the content decides where it shows a
/// format.
pub fn is_read_as_png(by_content: Option<ImageKind>, by_extension: Option<ImageKind>) -> (r: bool)
    ensures
        r == match by_content {
            Some(f) => f == ImageKind::Png,
            None => by_extension == Some(ImageKind::Png),
        },
{
    match by_content {
        Some(ImageKind::Png) => true,
        Some(_) => false,
        None => match by_extension {
            Some(ImageKind::Png) => true,
            _ => false,
        },
    }
}

/// Reads a file's bytes, given with its extension, as a PNG image: its
/// width, height and RGBA8 pixels.
pub fn load_png_rgba(extension: Option<&str>, bytes: &[u8]) -> (r: Result<
    (u32, u32, Vec<u8>),
    LoadPngError,
>)
    ensures
        (r matches Err(LoadPngError::NotPng)) <==> chosen_format(extension_view(extension), bytes@)
            != Some(ImageKind::Png),
        chosen_format(extension_view(extension), bytes@) == Some(ImageKind::Png) ==> (r is Ok
            <==> png_rgba8(bytes@) is Some),
        r matches Ok((w, h, px)) ==> png_rgba8(bytes@) == Some((w, h, px@)) && px@.len()
            == rgba_len_spec(w as int, h as int),
{
    let by_content = guess_image_format(bytes);
    let by_extension = match (by_content, extension) {
        (None, Some(e)) => if !e.is_empty() {
            image_format_of_extension(e)
        } else {
            None
        },
        _ => None,
    };
    if !is_read_as_png(by_content, by_extension) {
        return Err(LoadPngError::NotPng);
    }
    match decode_png_rgba8(bytes) {
        Ok(img) => Ok(img),
        Err(e) => Err(LoadPngError::Decode(e)),
    }
}

/// Encodes a `width` by `height` RGBA8 image as a PNG file; only the first
/// `width * height * 4` bytes of `pixels` are used.
pub fn encode_png_rgba(width: u32, height: u32, pixels: &[u8]) -> (r: Result<Vec<u8>, SavePngError>)
    ensures
        (r matches Err(SavePngError::InvalidSaveBuffer)) <==> rgba_len_spec(width as int, height as int)
            > pixels@.len(),
        rgba_len_spec(width as int, height as int) <= pixels@.len() ==> (r is Ok <==> png_encoding(
            width,
            height,
            pixels@.take(rgba_len_spec(width as int, height as int)),
        ) is Some),
        r matches Ok(b) ==> png_encoding(
            width,
            height,
            pixels@.take(rgba_len_spec(width as int, height as int)),
        ) == Some(b@),
{
    let available = pixels.len();
    let n = match rgba_buffer_len(width, height) {
        Some(n) => n,
        None => {
            assert(pixels@.len() == available as int);
            return Err(SavePngError::InvalidSaveBuffer);
        },
    };
    if available < n {
        return Err(SavePngError::InvalidSaveBuffer);
    }
    let image = vstd::slice::slice_subrange(pixels, 0, n);
    proof {
        assert(image@ =~= pixels@.take(n as int));
    }
    match encode_png_rgba8(width, height, image) {
        Ok(b) => Ok(b),
        Err(e) => Err(SavePngError::Encode(e)),
    }
}

} // verus!
