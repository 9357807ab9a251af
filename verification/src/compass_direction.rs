//! The nine directions of a cell's neighbourhood.

use vstd::prelude::*;

verus! {

/// A step from a cell to one of its neighbours, or to itself.
///
/// `x` is the step along the row (columns), `y` the step along the column
/// (rows). `cardinal` marks north, east, south and west. `active` tells
/// whether the neighbourhood in use counts this direction.
#[derive(Clone, Copy, Debug, PartialEq, Eq, Structural)]
pub struct CompassDirection {
    pub x: isize,
    pub y: isize,
    pub cardinal: bool,
    pub active: bool,
}

impl CompassDirection {
    /// A direction reaches at most one cell away along each axis.
    pub open spec fn is_step(&self) -> bool {
        -1 <= self.x <= 1 && -1 <= self.y <= 1
    }
}

/// The direction at place `k` of the table: places run north-west, north,
/// north-east, west, origin, east, south-west, south, south-east.
pub open spec fn direction_at(k: int, diagonals: bool) -> CompassDirection {
    let x = k % 3 - 1;
    let y = k / 3 - 1;
    CompassDirection {
        x: x as isize,
        y: y as isize,
        cardinal: (x == 0) != (y == 0),
        active: diagonals || x == 0 || y == 0,
    }
}

/// The table of nine directions. Diagonal directions are active exactly when
/// `diagonals` is set; the cardinal ones and the origin always are.
pub open spec fn compass_table(diagonals: bool) -> Seq<CompassDirection> {
    Seq::new(9, |k: int| direction_at(k, diagonals))
}

/// The table holds four cardinal directions, the origin and four diagonals,
/// each a single step, and the four diagonals are active or inactive together.
pub proof fn lemma_compass_table_shape(diagonals: bool)
    ensures
        compass_table(diagonals).len() == 9,
        forall|k: int| 0 <= k < 9 ==> (#[trigger] compass_table(diagonals)[k]).is_step(),
        forall|k: int|
            0 <= k < 9 ==> ((#[trigger] compass_table(diagonals)[k]).cardinal <==> (k == 1 || k == 3
                || k == 5 || k == 7)),
        forall|k: int|
            0 <= k < 9 ==> ((#[trigger] compass_table(diagonals)[k]).active <==> (diagonals || k
                != 0 && k != 2 && k != 6 && k != 8)),
        compass_table(diagonals)[4].x == 0 && compass_table(diagonals)[4].y == 0,
{
}

/// The nine directions in their fixed order.
pub struct Compass {
    compass: Vec<CompassDirection>,
}

impl View for Compass {
    type V = Seq<CompassDirection>;

    closed spec fn view(&self) -> Seq<CompassDirection> {
        self.compass@
    }
}

impl Compass {
    /// Builds the table; with `cardinals_only` the diagonals are left
    /// inactive (the von Neumann neighbourhood), without it they are active
    /// (the Moore neighbourhood).
    pub fn new(cardinals_only: bool) -> (c: Compass)
        ensures
            c@ == compass_table(!cardinals_only),
    {
        let compass: Vec<CompassDirection> = vec![
            CompassDirection { x: -1, y: -1, cardinal: false, active: !cardinals_only },
            CompassDirection { x: 0, y: -1, cardinal: true, active: true },
            CompassDirection { x: 1, y: -1, cardinal: false, active: !cardinals_only },
            CompassDirection { x: -1, y: 0, cardinal: true, active: true },
            CompassDirection { x: 0, y: 0, cardinal: false, active: true },
            CompassDirection { x: 1, y: 0, cardinal: true, active: true },
            CompassDirection { x: -1, y: 1, cardinal: false, active: !cardinals_only },
            CompassDirection { x: 0, y: 1, cardinal: true, active: true },
            CompassDirection { x: 1, y: 1, cardinal: false, active: !cardinals_only },
        ];
        assert(compass@ =~= compass_table(!cardinals_only));
        Compass { compass }
    }

    /// The directions, in table order.
    pub fn directions(&self) -> (d: &Vec<CompassDirection>)
        ensures
            d@ == self@,
    {
        &self.compass
    }
}

} // verus!
