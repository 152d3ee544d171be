//! A fixed ordered listing of a three-valued color enumeration, exposed for
//! iteration only.

use vstd::prelude::*;

verus! {

/// The three colors, in their declared order.
#[derive(Clone, Copy, Debug, PartialEq, Eq, Structural)]
pub enum Color {
    Red,
    Green,
    Blue,
}

/// The declared listing: exactly red, green, blue, in that order.
pub open spec fn color_listing() -> Seq<Color> {
    seq![Color::Red, Color::Green, Color::Blue]
}

/// Produces the fixed ordered listing of all colors: exactly
/// `[Red, Green, Blue]`, length three, no duplicates.
pub fn all_colors() -> (r: Vec<Color>)
    ensures
        r@ == color_listing(),
        r@.len() == 3,
        forall|i: int, j: int| 0 <= i < j < r@.len() ==> r@[i] != r@[j],
{
    let mut v: Vec<Color> = Vec::new();
    v.push(Color::Red);
    v.push(Color::Green);
    v.push(Color::Blue);
    proof {
        assert(v@ =~= color_listing());
    }
    v
}

} // verus!
