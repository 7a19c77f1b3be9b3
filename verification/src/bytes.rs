//! Bytes read as text, and bytes made smaller.

use std::io::Write;

use vstd::prelude::*;

verus! {

/// What `std::string::FromUtf8Error` says of bytes that are not UTF-8.
pub uninterp spec fn utf8_fault(bytes: Seq<u8>) -> Seq<char>;

/// The text that `String::from_utf8_lossy` makes of bytes.
pub uninterp spec fn lossy_text(bytes: Seq<u8>) -> Seq<char>;

/// What `flate2::write::GzEncoder` writes for bytes at the default level, if it
/// takes them.
pub uninterp spec fn gzipped(bytes: Seq<u8>) -> Option<Seq<u8>>;

/// `String::from_utf8` reads bytes as text exactly when they are valid UTF-8,
/// and otherwise says what is wrong with them.
#[verifier::external_body]
pub(crate) fn utf8(bytes: Vec<u8>) -> (r: Result<String, String>)
    ensures
        match r {
            Ok(s) => vstd::utf8::valid_utf8(bytes@) && s@ == vstd::utf8::decode_utf8(bytes@),
            Err(fault) => !vstd::utf8::valid_utf8(bytes@) && fault@ == utf8_fault(bytes@),
        },
{
    String::from_utf8(bytes).map_err(|e| e.to_string())
}

/// `String::from_utf8_lossy` reads bytes as text, with a replacement character
/// where they are not valid UTF-8, so that valid bytes are read as they are.
#[verifier::external_body]
pub(crate) fn lossy(bytes: &Vec<u8>) -> (r: String)
    ensures
        r@ == lossy_text(bytes@),
        vstd::utf8::valid_utf8(bytes@) ==> r@ == vstd::utf8::decode_utf8(bytes@),
{
    String::from_utf8_lossy(bytes).into_owned()
}

/// `flate2::write::GzEncoder` compresses bytes written to it and hands back
/// what it wrote, with no name, comment or time in the header. Writing to a
/// vector does not fail, so the bytes alone decide what comes back. Nothing is
/// claimed of what an error says.
#[verifier::external_body]
pub(crate) fn gzip(bytes: &Vec<u8>) -> (r: Result<Vec<u8>, String>)
    ensures
        match r {
            Ok(packed) => gzipped(bytes@) == Some(packed@),
            Err(_) => gzipped(bytes@) is None,
        },
{
    let level = flate2::Compression::default();
    let mut encoder = flate2::write::GzEncoder::new(Vec::new(), level);
    encoder.write_all(bytes).map_err(|e| e.to_string())?;
    encoder.finish().map_err(|e| e.to_string())
}

} // verus!
