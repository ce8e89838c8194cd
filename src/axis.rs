use vstd::prelude::*;

verus! {

/// A principal axis about which a point may be rotated.
#[derive(Debug, Clone, Copy, PartialEq, Eq, Structural)]
pub enum Axe {
    X,
    Y,
    Z,
}

/// The axes whose toggles are on, in the order X, Y, Z in which the
/// rotations are applied.
pub open spec fn axes_in_order(rotx: bool, roty: bool, rotz: bool) -> Seq<Axe> {
    let sx = if rotx { seq![Axe::X] } else { Seq::empty() };
    let sy = if roty { seq![Axe::Y] } else { Seq::empty() };
    let sz = if rotz { seq![Axe::Z] } else { Seq::empty() };
    sx + sy + sz
}

/// Lists the enabled rotation axes in application order: X first, then Y,
/// then Z.
pub fn enabled_axes(rotx: bool, roty: bool, rotz: bool) -> (r: Vec<Axe>)
    ensures
        r@ == axes_in_order(rotx, roty, rotz),
{
    let mut r: Vec<Axe> = Vec::new();
    if rotx {
        r.push(Axe::X);
    }
    if roty {
        r.push(Axe::Y);
    }
    if rotz {
        r.push(Axe::Z);
    }
    assert(r@ =~= axes_in_order(rotx, roty, rotz));
    r
}

} // verus!
