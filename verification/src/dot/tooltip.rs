//! The tooltip of a payload.

use vstd::prelude::*;

verus! {

/// A trait that provides a tooltip for a node in graph visualization.
pub trait Tooltip {
    /// The tooltip.
    spec fn tooltip(&self) -> Seq<char>;

    /// Appends the tooltip to the text.
    fn fmt(&self, f: &mut String)
        ensures
            final(f)@ == old(f)@ + self.tooltip(),
    ;
}

/// A reference to a type whose text is its [`Tooltip`].
pub struct Ref<'a, T>(pub &'a T);

impl<'a, T: Tooltip> Ref<'a, T> {
    /// Returns the tooltip of the referent.
    pub fn to_string(&self) -> (text: String)
        ensures
            text@ == self.0.tooltip(),
    {
        let mut text = String::new();
        self.0.fmt(&mut text);
        assert(text@ =~= self.0.tooltip());
        text
    }
}

} // verus!
