use vstd::prelude::*;

use crate::image::Image;

verus! {

/// Tries to open the data with each supported container format in turn —
/// PNG first, then TGA — and returns the first match tagged with the
/// format's name, or `None` when no decoder recognizes the data. A returned
/// image always satisfies the buffer invariant.
pub fn open(data: &[u8]) -> (r: Option<(&'static str, Image)>)
    ensures
        r is Some ==> r.unwrap().1@.wf(),
        r is Some ==> (r.unwrap().0@ == "png"@ || r.unwrap().0@ == "tga"@),
{
    if let Some(image) = crate::png::from_png_data(data) {
        return Some(("png", image));
    }
    if let Some(image) = crate::tga::from_tga_data(data) {
        return Some(("tga", image));
    }
    None
}

} // verus!
