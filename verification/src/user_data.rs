//! Metadata that a sprite file may attach to a slice.

use vstd::prelude::*;

verus! {

/// User-provided metadata: a text, a color, or both.
#[derive(Debug, Clone)]
pub struct UserData {
    /// User-provided text.
    pub text: Option<String>,
    /// User-provided color, as red, green, blue and alpha.
    pub color: Option<[u8; 4]>,
}

/// What a [`UserData`] holds, as mathematical values.
pub struct UserDataView {
    pub text: Option<Seq<char>>,
    pub color: Option<[u8; 4]>,
}

impl View for UserData {
    type V = UserDataView;

    open spec fn view(&self) -> UserDataView {
        UserDataView {
            text: match self.text {
                Some(t) => Some(t@),
                None => None,
            },
            color: self.color,
        }
    }
}

} // verus!
