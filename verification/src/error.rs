use vstd::prelude::*;
use vstd::string::StringExecFns;

verus! {

/// The ways in which an operation of this library can fail.
///
/// Every operation fails as a whole: no partial image or archive is ever
/// returned together with an error.
#[derive(Clone, Copy, Debug, PartialEq, Eq, Structural)]
pub enum SazanError {
    /// A crop or tile rectangle reaches beyond the image it is applied to.
    Bounds,
    /// The images handed to grid composition do not all have the size of the first.
    SizeMismatch,
    /// A tile could not be serialized as a PNG image.
    Encode,
    /// An entry is too large for the archive container.
    Archive,
    /// A flat pixel buffer does not have the length that its claimed dimensions and count require.
    BufferLength,
}

impl SazanError {
    /// What went wrong, in words.
    pub open spec fn describe(self) -> Seq<char> {
        match self {
            SazanError::Bounds => "rectangle reaches beyond the image"@,
            SazanError::SizeMismatch => "images differ in size"@,
            SazanError::Encode => "tile could not be encoded"@,
            SazanError::Archive => "archive could not be written"@,
            SazanError::BufferLength => "buffer length does not fit the dimensions"@,
        }
    }

    /// What went wrong, in words, for a caller to show.
    pub fn message(&self) -> (text: String)
        ensures
            text@ == self.describe(),
    {
        match self {
            SazanError::Bounds => String::from_str("rectangle reaches beyond the image"),
            SazanError::SizeMismatch => String::from_str("images differ in size"),
            SazanError::Encode => String::from_str("tile could not be encoded"),
            SazanError::Archive => String::from_str("archive could not be written"),
            SazanError::BufferLength => String::from_str(
                "buffer length does not fit the dimensions",
            ),
        }
    }
}

} // verus!
