//! Asset store logic: naming, transport decoding and re-encoding of
//! the binary image files kept beside the structured store.
//!
//! The filesystem reads and writes themselves live outside this
//! library; what is verified here is the plan they execute: the
//! generated relative reference, the decoded bytes to write, and the
//! transport form returned to callers.

use vstd::prelude::*;
use crate::foreign::{b64_of, b64_decode_of, b64_encode, b64_decode, fresh_id};
use crate::extract::{is_stripped, strip_transport_prefix, lemma_stripped_unique};
use crate::raster::data_url_of;
use vstd::string::StringExecFns;

verus! {

/// The location of the structured store file.
pub struct DbPath(pub String);

/// The application storage root; asset files live under its `images`
/// subdirectory.
pub struct AppDir(pub String);

impl AppDir {
    /// The absolute location of a relative reference under the root.
    pub fn join(&self, rel: &String) -> (r: String)
        ensures
            r@ == self.0@ + "/"@ + rel@,
    {
        let mut s = String::new();
        s.append(self.0.as_str());
        s.append("/");
        s.append(rel.as_str());
        s
    }
}

/// A failure of the asset store.
#[derive(Clone, Copy, PartialEq, Eq, Structural, Debug)]
pub enum AssetError {
    /// The referenced asset file does not exist.
    NotFound,
    /// The supplied payload is not valid transport encoding.
    InvalidEncoding,
}

impl AssetError {
    /// A short description of the error.
    pub fn message(&self) -> (r: String)
        ensures
            *self == AssetError::NotFound ==> r@ == "asset not found"@,
            *self == AssetError::InvalidEncoding ==> r@ == "invalid asset encoding"@,
    {
        let mut s = String::new();
        match self {
            AssetError::NotFound => {
                s.append("asset not found");
            },
            AssetError::InvalidEncoding => {
                s.append("invalid asset encoding");
            },
        }
        s
    }
}

/// Decodes a transport payload (optionally prefixed as a data URL)
/// into raw asset bytes.
pub fn decode_asset(data: &String) -> (r: Result<Vec<u8>, AssetError>)
    ensures
        match r {
            Ok(v) => exists|t: Seq<char>|
                #[trigger] is_stripped(data@, t) && b64_decode_of(t) == Some(v@),
            Err(e) => e == AssetError::InvalidEncoding && forall|t: Seq<char>|
                #[trigger] is_stripped(data@, t) ==> b64_decode_of(t) is None,
        },
{
    let stripped = strip_transport_prefix(data);
    match b64_decode(&stripped) {
        Some(v) => Ok(v),
        None => {
            proof {
                assert forall|t: Seq<char>| #[trigger]
                    is_stripped(data@, t) implies b64_decode_of(t) is None by {
                    lemma_stripped_unique(data@, t, stripped@);
                }
            }
            Err(AssetError::InvalidEncoding)
        },
    }
}

/// Re-encodes raw asset bytes for transport, as a base64 data URL.
pub fn encode_asset(bytes: &Vec<u8>) -> (r: String)
    requires
        bytes@.len() <= usize::MAX / 2,
    ensures
        r@ == data_url_of(bytes@),
{
    let b64 = b64_encode(bytes);
    let mut s = String::new();
    s.append("data:image/png;base64,");
    s.append(b64.as_str());
    s
}

/// A fresh collision-resistant asset filename.
pub fn fresh_asset_filename() -> (r: String)
    ensures
        exists|nm: Seq<char>| nm.len() == 36 && r@ == nm + ".png"@,
{
    let id = fresh_id();
    let ghost nm = id@;
    let mut s = id;
    s.append(".png");
    proof {
        assert(s@ == nm + ".png"@);
    }
    s
}

/// The relative reference of an asset filename, under the `images`
/// subdirectory of the storage root.
pub fn asset_rel_path(filename: &String) -> (r: String)
    ensures
        r@ == "images/"@ + filename@,
{
    let mut s = String::new();
    s.append("images/");
    s.append(filename.as_str());
    s
}

/// Plans a save: decodes the transport payload and generates the
/// relative reference under which the bytes are to be written.  The
/// caller writes the bytes and uses the reference as `image_path` or
/// `page_image_path`.
pub fn plan_asset_save(data: &String) -> (r: Result<(String, Vec<u8>), AssetError>)
    ensures
        match r {
            Ok(p) => (exists|t: Seq<char>|
                #[trigger] is_stripped(data@, t) && b64_decode_of(t) == Some(p.1@)) && (exists|
                nm: Seq<char>,
            |
                nm.len() == 36 && p.0@ == "images/"@ + nm + ".png"@),
            Err(e) => e == AssetError::InvalidEncoding && forall|t: Seq<char>|
                #[trigger] is_stripped(data@, t) ==> b64_decode_of(t) is None,
        },
{
    let bytes = match decode_asset(data) {
        Ok(v) => v,
        Err(e) => {
            return Err(e);
        },
    };
    let filename = fresh_asset_filename();
    let rel = asset_rel_path(&filename);
    proof {
        let nm = choose|nm: Seq<char>| nm.len() == 36 && filename@ == nm + ".png"@;
        assert(rel@ == "images/"@ + (nm + ".png"@));
        assert(rel@ =~= "images/"@ + nm + ".png"@);
    }
    Ok((rel, bytes))
}

} // verus!
