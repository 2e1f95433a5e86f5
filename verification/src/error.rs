//! What can be wrong with the paths that a playlist is made from.

use vstd::prelude::*;

verus! {

/// Why no playlist is made for a directory.
#[derive(Clone, Copy, Debug, PartialEq, Eq)]
pub enum PlaylistError {
    /// The directory's path has no final component to name the playlist
    /// after, as the root has none.
    AbnormalPath,
    /// The directory's name, or the path of an entry, is not valid Unicode.
    InvalidUnicode,
}

impl PlaylistError {
    /// The message for the error.
    pub fn message(&self) -> (text: &'static str)
        ensures
            text@ == match *self {
                PlaylistError::AbnormalPath => "Abnormal file"@,
                PlaylistError::InvalidUnicode => "Invalid unicode"@,
            },
    {
        match self {
            PlaylistError::AbnormalPath => "Abnormal file",
            PlaylistError::InvalidUnicode => "Invalid unicode",
        }
    }
}

} // verus!
