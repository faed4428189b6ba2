//! What the comparison of whole images asks of an image.
use vstd::prelude::*;

verus! {

/// An image of type `T` that was read from a file.
pub trait SingleImage<T> {
    /// The path that the image was read from.
    fn path(&self) -> &str;

    /// The image itself.
    fn content(&self) -> &T;
}

} // verus!
