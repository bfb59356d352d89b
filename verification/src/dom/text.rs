//! Static text.

use vstd::prelude::*;

verus! {

/// A piece of static text to render.
pub struct Text(String);

impl View for Text {
    type V = Seq<char>;

    closed spec fn view(&self) -> Seq<char> {
        self.0@
    }
}

impl Text {
    /// The text with the given content.
    pub fn new(value: &str) -> (text: Self)
        ensures
            text@ == value@,
    {
        Text(value.to_owned())
    }

    /// The content of the text.
    pub fn as_str(&self) -> (content: &str)
        ensures
            content@ == self@,
    {
        self.0.as_str()
    }
}

} // verus!
