use vstd::prelude::*;
use crate::cache::same_text;

verus! {

/// What `str::to_lowercase` makes of a string.
pub uninterp spec fn lower_of(s: Seq<char>) -> Seq<char>;

/// Relies on str::to_lowercase: the result depends on the characters alone.
#[verifier::external_body]
fn lowercase(s: &str) -> (r: String)
    ensures
        r@ == lower_of(s@),
{
    s.to_lowercase()
}

/// The lower-case extensions of the image formats that are scanned.
pub open spec fn is_listed_extension(ext: Seq<char>) -> bool {
    ext == "jpg"@ || ext == "jpeg"@ || ext == "png"@ || ext == "gif"@ || ext == "bmp"@
}

/// Whether an already lower-cased extension names a scanned image format.
pub fn is_listed_lowercase(ext: &str) -> (r: bool)
    ensures
        r == is_listed_extension(ext@),
{
    same_text(ext, "jpg") || same_text(ext, "jpeg") || same_text(ext, "png") || same_text(ext, "gif")
        || same_text(ext, "bmp")
}

/// Whether a file extension names a scanned image format, ignoring case.
pub fn is_image_extension(ext: &str) -> (r: bool)
    ensures
        r == is_listed_extension(lower_of(ext@)),
{
    let lower = lowercase(ext);
    is_listed_lowercase(lower.as_str())
}

} // verus!
