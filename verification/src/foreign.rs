//! Trusted wrappers around the outside crates the pipeline leans on:
//! base64 transport encoding, identifier generation, timestamps, and
//! the synthetic placeholder page image.  Each wrapper's contract
//! states only what the crate's source or documentation shows; the
//! verified logic is proved against these contracts.

use vstd::prelude::*;
use base64::Engine;

verus! {

/// The standard base64 encoding (with padding) of a byte sequence.
pub uninterp spec fn b64_of(b: Seq<u8>) -> Seq<char>;

/// The standard base64 decoding of a character sequence: the decoded
/// bytes, or nothing when the input is not valid base64.
pub uninterp spec fn b64_decode_of(s: Seq<char>) -> Option<Seq<u8>>;

/// Relies on base64's `Engine::encode` with the standard alphabet:
/// four output characters for every three input bytes (padded), and
/// `Engine::decode` restores the input bytes from the result.
#[verifier::external_body]
pub(crate) fn b64_encode(b: &Vec<u8>) -> (r: String)
    requires
        b@.len() <= usize::MAX / 2,
    ensures
        r@ == b64_of(b@),
        r@.len() == 4 * ((b@.len() + 2) / 3),
        b64_decode_of(r@) == Some(b@),
{
    base64::engine::general_purpose::STANDARD.encode(b)
}

/// Relies on base64's `Engine::decode` with the standard alphabet: the
/// decoded bytes of a valid input, and an error on an invalid one.
#[verifier::external_body]
pub(crate) fn b64_decode(s: &String) -> (r: Option<Vec<u8>>)
    ensures
        r is Some <==> b64_decode_of(s@) is Some,
        match r {
            Some(v) => b64_decode_of(s@) == Some(v@),
            None => true,
        },
{
    base64::engine::general_purpose::STANDARD.decode(s.as_bytes()).ok()
}

/// Relies on uuid's `Uuid::new_v4` and its hyphenated rendering: a
/// fresh random identifier, printed as 36 ASCII characters.
#[verifier::external_body]
pub(crate) fn fresh_id() -> (r: String)
    ensures
        r@.len() == 36,
{
    uuid::Uuid::new_v4().to_string()
}

/// Relies on chrono's `Utc::now`: the current time in milliseconds
/// since the Unix epoch.  Nothing is promised of the value.
#[verifier::external_body]
pub(crate) fn now_millis() -> (r: i64) {
    chrono::Utc::now().timestamp_millis()
}

/// The Unicode lowercase form of a character sequence.
pub uninterp spec fn unicode_lower_of(s: Seq<char>) -> Seq<char>;

/// Relies on `str::to_lowercase` of std: the Unicode lowercase
/// mapping, a function of the characters alone (no locale is
/// consulted).
#[verifier::external_body]
pub(crate) fn unicode_lower(s: &String) -> (r: String)
    ensures
        r@ == unicode_lower_of(s@),
{
    s.to_lowercase()
}

/// The PNG encoding of a solid-colour page of the given size: every
/// pixel holds the same level in all three channels, fully opaque.
pub uninterp spec fn solid_png_of(w: u32, h: u32, level: u8) -> Seq<u8>;

/// Relies on image's `ImageBuffer::from_pixel` and `write_to` with the
/// PNG format: the PNG encoding of a solid-colour image of the given
/// dimensions.  The result depends on the arguments alone.  Under the
/// stated bounds the encode cannot fail: the buffer size fits, the
/// dimensions are nonzero (the PNG encoder's only rejections), and the
/// writer is an in-memory vector; the output is the pixel data -- at
/// most four bytes per pixel before compression, which never expands
/// a stored stream past a small per-block overhead -- plus fixed
/// headers, well within the stated bound.
#[verifier::external_body]
pub(crate) fn solid_png(w: u32, h: u32, level: u8) -> (r: Option<Vec<u8>>)
    requires
        0 < w,
        0 < h,
        (w as int) * (h as int) <= 0x00ff_ffff,
    ensures
        r is Some,
        match r {
            Some(v) => v@ == solid_png_of(w, h, level) && v@.len() <= 100 + 20 * (w as int) * (
            h as int),
            None => true,
        },
{
    let img: image::ImageBuffer<image::Rgba<u8>, Vec<u8>> = image::ImageBuffer::from_pixel(
        w,
        h,
        image::Rgba([level, level, level, 255]),
    );
    let mut bytes: Vec<u8> = Vec::new();
    match img.write_to(&mut std::io::Cursor::new(&mut bytes), image::ImageFormat::Png) {
        Ok(()) => Some(bytes),
        Err(_) => None,
    }
}

} // verus!
