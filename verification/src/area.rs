use vstd::prelude::*;

verus! {

/// A rectangular terminal region measured in cells.
#[derive(Copy, Clone, Debug, Default, PartialEq, Eq, Hash, Structural)]
pub struct Area {
    /// Horizontal coordinate of the left edge.
    pub x: u16,
    /// Vertical coordinate of the top edge.
    pub y: u16,
    /// Width in terminal cells.
    pub w: u16,
    /// Height in terminal cells.
    pub h: u16,
}

impl Area {
    /// Creates an area at `(x, y)` with the given width and height.
    pub fn new(x: u16, y: u16, w: u16, h: u16) -> (area: Self)
        ensures
            area == (Area { x, y, w, h }),
    {
        Area { x, y, w, h }
    }
}

impl From<(u16, u16)> for Area {
    /// An area of the given width and height at the origin.
    fn from(size: (u16, u16)) -> (area: Self) {
        Area { x: 0, y: 0, w: size.0, h: size.1 }
    }
}

impl vstd::std_specs::convert::FromSpecImpl<(u16, u16)> for Area {
    open spec fn obeys_from_spec() -> bool {
        true
    }

    open spec fn from_spec(size: (u16, u16)) -> Area {
        Area { x: 0, y: 0, w: size.0, h: size.1 }
    }
}

/// An area made from a size `(width, height)` has that width and height and starts at the
/// origin, whichever of the two is larger.
pub proof fn lemma_area_from_size(width: u16, height: u16)
    ensures
        <Area as vstd::std_specs::convert::FromSpec<(u16, u16)>>::obeys_from_spec(),
        ({
            let area = <Area as vstd::std_specs::convert::FromSpec<(u16, u16)>>::from_spec(
                (width, height),
            );
            &&& area.x == 0 && area.y == 0
            &&& area.w == width && area.h == height
        }),
{
}

} // verus!
