//! The label of a payload.

use vstd::prelude::*;

verus! {

/// A trait that provides a label for a node in graph visualization.
pub trait Label {
    /// The label.
    spec fn label(&self) -> Seq<char>;

    /// Appends the label to the text.
    fn fmt(&self, f: &mut String)
        ensures
            final(f)@ == old(f)@ + self.label(),
    ;
}

/// A reference to a type whose text is its [`Label`].
pub struct Ref<'a, T>(pub &'a T);

impl<'a, T: Label> Ref<'a, T> {
    /// Returns the label of the referent.
    pub fn to_string(&self) -> (text: String)
        ensures
            text@ == self.0.label(),
    {
        let mut text = String::new();
        self.0.fmt(&mut text);
        assert(text@ =~= self.0.label());
        text
    }
}

} // verus!
