//! Image loading and perceptual hashing.
//!
//! Raw file bytes are decoded into an image and reduced to a 64-bit
//! perceptual fingerprint.  Loading prefers the image's embedded
//! metadata thumbnail (much cheaper than a full decode) and downscales
//! any image larger than 512 pixels in either dimension.  Decoding,
//! resizing, metadata parsing and the hash transform itself are done
//! by the exif, image and hashing crates behind trusted wrappers whose
//! contracts name their results; the policy around them (thumbnail
//! first, when to resize, which algorithm variants are accepted) is
//! verified, and so is the extraction of the thumbnail bytes from the
//! metadata buffer.

use vstd::prelude::*;
use crate::fingerprint::HashType;
use crate::fingerprint::PerceptualFingerprint;

verus! {

/// Images wider or taller than this are downscaled before hashing.
pub const MAX_HASH_DIMENSION: u32 = 512;

#[verifier::external_type_specification]
#[verifier::external_body]
pub struct ExDynamicImage(image::DynamicImage);

/// Why a perceptual hash could not be computed.
#[derive(Debug, Clone, Copy, PartialEq, Eq, Structural)]
pub enum HashError {
    /// The requested algorithm variant only applies to exact content
    /// hashing, not to perceptual hashing.
    UnsupportedVariant,
}

/// The image that `data` decodes to, if any: what image's
/// `load_from_memory` returns.
pub uninterp spec fn decoded_of(data: Seq<u8>) -> Option<image::DynamicImage>;

/// The width and height of an image in pixels: what image's
/// `GenericImageView::dimensions` returns.
pub uninterp spec fn dims_of(img: image::DynamicImage) -> (u32, u32);

/// The aspect-preserving downscale of an image to fit within the given
/// bounds: what image's `DynamicImage::resize` returns.
pub uninterp spec fn resized_of(img: image::DynamicImage, max_w: u32, max_h: u32) -> image::DynamicImage;

/// The 64-bit perceptual hash of an image under an algorithm variant:
/// what img_hash's `Hasher::hash_image` returns, packed little-endian.
pub uninterp spec fn phash_of(img: image::DynamicImage, hash_type: HashType) -> u64;

/// The embedded thumbnail's location in a file's metadata, if the
/// metadata parses and declares one: the raw metadata buffer together
/// with the thumbnail's offset and length fields.
pub uninterp spec fn exif_thumb_parts_of(data: Seq<u8>) -> Option<(Seq<u8>, u64, u64)>;

/// Whether an image has at least one pixel: both of its dimensions
/// are nonzero.  An image with an empty axis cannot be resampled, so
/// resizing and hashing are only applied to images with pixels; a
/// decoded image without any counts as undecodable.
pub open spec fn has_pixels(img: image::DynamicImage) -> bool {
    dims_of(img).0 > 0 && dims_of(img).1 > 0
}

/// Relies on image's `load_from_memory`: decodes an image from raw
/// bytes, guessing the format; `None` when the bytes are not a
/// decodable image.  The result depends on the bytes alone.
#[verifier::external_body]
fn decode_image(data: &Vec<u8>) -> (r: Option<image::DynamicImage>)
    ensures
        r == decoded_of(data@),
{
    image::load_from_memory(data.as_slice()).ok()
}

/// Relies on image's `GenericImageView::dimensions`: the width and
/// height of the image in pixels, a function of the image alone.
#[verifier::external_body]
fn image_dimensions(img: &image::DynamicImage) -> (r: (u32, u32))
    ensures
        r == dims_of(*img),
{
    image::GenericImageView::dimensions(img)
}

/// Relies on image's `DynamicImage::resize`: scales the image to the
/// largest size that fits within the given bounds, preserving aspect
/// ratio, with nearest-neighbor resampling.  The result is a function
/// of the image and the bounds alone, and both of its dimensions lie
/// between one and the bound.  An image with an empty axis cannot be
/// resampled (the sampling window over that axis is empty), so only
/// images with pixels are admitted.
#[verifier::external_body]
fn resize_nearest(img: &image::DynamicImage, max_w: u32, max_h: u32) -> (r: image::DynamicImage)
    requires
        max_w >= 1,
        max_h >= 1,
        has_pixels(*img),
    ensures
        r == resized_of(*img, max_w, max_h),
        dims_of(r).0 <= max_w,
        dims_of(r).1 <= max_h,
        has_pixels(r),
{
    img.resize(max_w, max_h, image::imageops::FilterType::Nearest)
}

/// Relies on img_hash's `Hasher::hash_image` with an 8-by-8 hash size:
/// a 64-bit perceptual hash of the image under the selected algorithm,
/// a function of the image and the variant alone.  The transform
/// resamples the image down to the hash grid, so an image with an
/// empty axis is not admitted.
#[verifier::external_body]
fn hash_image_bits(img: &image::DynamicImage, hash_type: HashType) -> (r: u64)
    requires
        hash_type != HashType::Exact,
        has_pixels(*img),
    ensures
        r == phash_of(*img, hash_type),
{
    let alg = match hash_type {
        HashType::Perceptual => img_hash::HashAlg::DoubleGradient,
        HashType::Difference => img_hash::HashAlg::Gradient,
        HashType::Average => img_hash::HashAlg::Mean,
        HashType::Exact => img_hash::HashAlg::Gradient,
    };
    let hasher = img_hash::HasherConfig::new().hash_size(8, 8).hash_alg(alg).to_hasher();
    let hash = hasher.hash_image(img);
    let mut bits: u64 = 0;
    let mut shift: u32 = 0;
    for b in hash.as_bytes().iter().take(8) {
        bits |= (*b as u64) << shift;
        shift += 8;
    }
    bits
}

/// Relies on exif's `Reader::read_from_container`, `Exif::get_field`
/// and `Value::get_uint`: when the file's metadata parses and declares
/// an embedded thumbnail, the raw metadata buffer (which the declared
/// offset is relative to) together with the thumbnail offset and
/// length fields; `None` otherwise.  The result depends on the input
/// bytes alone.
#[verifier::external_body]
fn exif_thumbnail_parts(data: &Vec<u8>) -> (r: Option<(Vec<u8>, u64, u64)>)
    ensures
        (match r {
            Some(p) => exif_thumb_parts_of(data@) == Some((p.0@, p.1, p.2)),
            None => exif_thumb_parts_of(data@) is None,
        }),
{
    let mut cur = std::io::Cursor::new(data.as_slice());
    let ex = exif::Reader::new().read_from_container(&mut cur).ok()?;
    let off = ex.get_field(exif::Tag::JPEGInterchangeFormat, exif::In::THUMBNAIL)?.value.get_uint(0)?;
    let len = ex.get_field(exif::Tag::JPEGInterchangeFormatLength, exif::In::THUMBNAIL)?.value.get_uint(0)?;
    Some((ex.buf().to_vec(), off as u64, len as u64))
}

/// Copies the region of `buf` that starts at `off` and is `len` bytes
/// long, or returns `None` when the region does not lie within `buf`.
pub fn extract_region(buf: &Vec<u8>, off: u64, len: u64) -> (r: Option<Vec<u8>>)
    ensures
        (match r {
            Some(v) => off + len <= buf@.len() && v@ == buf@.subrange(
                off as int,
                off as int + len as int,
            ),
            None => off + len > buf@.len(),
        }),
{
    let n = buf.len();
    if len > n as u64 || off > (n as u64) - len {
        return None;
    }
    let start = off as usize;
    let count = len as usize;
    let mut out: Vec<u8> = Vec::new();
    let mut i: usize = 0;
    while i < count
        invariant
            n == buf@.len(),
            start + count <= n,
            start == off,
            count == len,
            i <= count,
            out@ == buf@.subrange(start as int, start as int + i as int),
        decreases count - i,
    {
        out.push(buf[start + i]);
        proof {
            assert(out@ =~= buf@.subrange(start as int, start as int + i + 1));
        }
        i = i + 1;
    }
    Some(out)
}

/// The thumbnail bytes embedded in a file's metadata, if the metadata
/// declares a thumbnail region that lies within the metadata buffer.
pub open spec fn spec_thumb_bytes(data: Seq<u8>) -> Option<Seq<u8>> {
    match exif_thumb_parts_of(data) {
        Some(p) => if p.1 + p.2 <= p.0.len() {
            Some(p.0.subrange(p.1 as int, p.1 + p.2))
        } else {
            None
        },
        None => None,
    }
}

/// An image downscaled to fit within 512 by 512 when either dimension
/// exceeds it, and kept as it is otherwise.
pub open spec fn spec_fit_image(img: image::DynamicImage) -> image::DynamicImage {
    if dims_of(img).0 > MAX_HASH_DIMENSION || dims_of(img).1 > MAX_HASH_DIMENSION {
        resized_of(img, MAX_HASH_DIMENSION, MAX_HASH_DIMENSION)
    } else {
        img
    }
}

/// The image that loading a file's bytes yields: the embedded metadata
/// thumbnail when one decodes to at least one pixel, the full decode
/// otherwise, either one downscaled to fit within 512 by 512; `None`
/// when no thumbnail decodes and the full decode fails or yields an
/// image with an empty axis.
pub open spec fn spec_load_image(data: Seq<u8>) -> Option<image::DynamicImage> {
    let thumb = match spec_thumb_bytes(data) {
        Some(tb) => match decoded_of(tb) {
            Some(t) => if has_pixels(t) {
                Some(t)
            } else {
                None
            },
            None => None,
        },
        None => None,
    };
    match thumb {
        Some(t) => Some(spec_fit_image(t)),
        None => match decoded_of(data) {
            Some(img) => if has_pixels(img) {
                Some(spec_fit_image(img))
            } else {
                None
            },
            None => None,
        },
    }
}

fn fit_image(img: image::DynamicImage) -> (r: image::DynamicImage)
    requires
        has_pixels(img),
    ensures
        r == spec_fit_image(img),
        dims_of(r).0 <= MAX_HASH_DIMENSION,
        dims_of(r).1 <= MAX_HASH_DIMENSION,
        has_pixels(r),
{
    let (width, height) = image_dimensions(&img);
    if width > MAX_HASH_DIMENSION || height > MAX_HASH_DIMENSION {
        resize_nearest(&img, MAX_HASH_DIMENSION, MAX_HASH_DIMENSION)
    } else {
        img
    }
}

/// Loads a decodable image from raw file bytes.  The fast path decodes
/// the thumbnail embedded in the file's metadata when there is one;
/// only when there is none, or it does not decode to at least one
/// pixel, is the whole file decoded.  A decode that yields an image
/// with an empty axis counts as a failed decode.  Any image larger
/// than 512 pixels in either dimension is downscaled to fit within
/// 512 by 512 using nearest-neighbor resampling, a deliberate
/// speed/quality trade-off for fingerprinting.
pub fn load_image(data: &Vec<u8>) -> (r: Option<image::DynamicImage>)
    ensures
        r == spec_load_image(data@),
        r is Some <==> spec_load_image(data@) is Some,
        (match r {
            Some(img) => dims_of(img).0 <= MAX_HASH_DIMENSION && dims_of(img).1
                <= MAX_HASH_DIMENSION && has_pixels(img),
            None => true,
        }),
{
    match exif_thumbnail_parts(data) {
        Some((buf, off, len)) => match extract_region(&buf, off, len) {
            Some(tb) => match decode_image(&tb) {
                Some(thumb) => {
                    let (tw, th) = image_dimensions(&thumb);
                    if tw > 0 && th > 0 {
                        return Some(fit_image(thumb));
                    }
                },
                None => {},
            },
            None => {},
        },
        None => {},
    }
    match decode_image(data) {
        Some(img) => {
            let (w, h) = image_dimensions(&img);
            if w > 0 && h > 0 {
                Some(fit_image(img))
            } else {
                None
            }
        },
        None => None,
    }
}

/// Computes the perceptual fingerprint of an image under the chosen
/// algorithm variant.  The exact-hash variant cannot be computed this
/// way and is rejected, and is the only variant that is; any other
/// variant yields the image's perceptual hash under that variant, a
/// function of the image and the variant alone.  The hash transform
/// resamples the image, so for those variants the image must have at
/// least one pixel.
pub fn compute_perceptual_hash(image: &image::DynamicImage, hash_type: HashType) -> (r: Result<
    PerceptualFingerprint,
    HashError,
>)
    requires
        hash_type != HashType::Exact ==> has_pixels(*image),
    ensures
        r is Err <==> hash_type == HashType::Exact,
        (match r {
            Ok(fp) => fp.bits == phash_of(*image, hash_type),
            Err(e) => e == HashError::UnsupportedVariant,
        }),
{
    if let HashType::Exact = hash_type {
        Err(HashError::UnsupportedVariant)
    } else {
        Ok(PerceptualFingerprint { bits: hash_image_bits(image, hash_type) })
    }
}

/// The fingerprint bits that a file's bytes yield under a variant:
/// the perceptual hash of the loaded image, or `None` when the bytes
/// yield no decodable image.
pub open spec fn spec_image_fingerprint(data: Seq<u8>, hash_type: HashType) -> Option<u64> {
    match spec_load_image(data) {
        Some(img) => Some(phash_of(img, hash_type)),
        None => None,
    }
}

/// Fingerprints raw file bytes: loads the image (thumbnail first,
/// downscaled to fit), then computes its perceptual fingerprint under
/// the chosen variant.  Returns `None` exactly when the bytes yield no
/// decodable image.
pub fn fingerprint_image_bytes(data: &Vec<u8>, hash_type: HashType) -> (r: Option<
    PerceptualFingerprint,
>)
    requires
        hash_type != HashType::Exact,
    ensures
        (match r {
            Some(fp) => Some(fp.bits) == spec_image_fingerprint(data@, hash_type),
            None => spec_image_fingerprint(data@, hash_type) is None,
        }),
        r is Some <==> spec_image_fingerprint(data@, hash_type) is Some,
{
    match load_image(data) {
        Some(img) => match compute_perceptual_hash(&img, hash_type) {
            Ok(fp) => Some(fp),
            Err(_) => None,
        },
        None => None,
    }
}

/// Fingerprinting is deterministic: two fingerprints computed from the
/// same image under the same algorithm variant are bit-identical.
pub proof fn lemma_fingerprint_deterministic(
    img: image::DynamicImage,
    hash_type: HashType,
    bits1: u64,
    bits2: u64,
)
    requires
        bits1 == phash_of(img, hash_type),
        bits2 == phash_of(img, hash_type),
    ensures
        bits1 == bits2,
{
}

} // verus!
