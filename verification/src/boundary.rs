//! Resolution of neighbour coordinates at the edge of a lattice.

use vstd::prelude::*;
use crate::compass_direction::CompassDirection;
use crate::error::AutomatonError;

verus! {

/// What happens to a step that leaves the lattice.
///
/// Only `Null` has a resolution rule: a step over the edge finds no cell.
/// The other policies are named so that a universe can carry them, and every
/// resolution under them is refused.
#[derive(Clone, Copy, Debug, PartialEq, Eq, Structural)]
pub enum BoundaryType {
    Null,
    Cylinder,
    Moebius,
    Torus,
    Klein,
}

/// The null policy along one axis of `extent` cells: a step below index 0 or
/// above the last index finds nothing, every other step lands on
/// `index + offset`.
pub open spec fn resolve_null(index: usize, offset: isize, extent: usize) -> Option<usize> {
    if (index == 0 && offset < 0) || (index == extent - 1 && offset > 0) {
        None
    } else {
        Some((index + offset) as usize)
    }
}

/// Under the null policy the two steps over the edge find nothing, and every
/// other single step from a cell of the axis lands, without wrapping or
/// clamping, on a cell of the axis.
pub proof fn lemma_resolve_null(index: usize, offset: isize, extent: usize)
    requires
        index < extent,
        -1 <= offset <= 1,
    ensures
        resolve_null(0, -1isize, extent) is None,
        resolve_null((extent - 1) as usize, 1isize, extent) is None,
        resolve_null(index, offset, extent) is None <==> (index == 0 && offset == -1) || (index
            == extent - 1 && offset == 1),
        resolve_null(index, offset, extent) matches Some(i) ==> i == index + offset && i < extent,
{
}

/// The edge of a lattice of `width` columns and `height` rows.
pub struct Boundary {
    width: usize,
    height: usize,
    pub boundary_type: BoundaryType,
}

impl Boundary {
    /// The number of columns.
    pub closed spec fn width(&self) -> usize {
        self.width
    }

    /// The number of rows.
    pub closed spec fn height(&self) -> usize {
        self.height
    }

    /// The policy in force.
    pub closed spec fn policy(&self) -> BoundaryType {
        self.boundary_type
    }

    /// The edge of a lattice of the given dimensions under the given policy.
    pub fn new(width: usize, height: usize, boundary_type: BoundaryType) -> (b: Boundary)
        ensures
            b.width() == width,
            b.height() == height,
            b.policy() == boundary_type,
    {
        Boundary { width, height, boundary_type }
    }

    /// The policy in force.
    pub fn get_policy(&self) -> (p: BoundaryType)
        ensures
            p == self.policy(),
    {
        self.boundary_type
    }

    /// The row reached from `row_index` by the vertical part of `offset`, or
    /// `None` where the step leaves the lattice.
    pub fn get_new_row_index(&self, row_index: usize, offset: &CompassDirection) -> (r: Result<
        Option<usize>,
        AutomatonError,
    >)
        requires
            row_index < self.height(),
            offset.is_step(),
        ensures
            self.policy() == BoundaryType::Null ==> r == Ok::<Option<usize>, AutomatonError>(
                resolve_null(row_index, offset.y, self.height()),
            ),
            self.policy() != BoundaryType::Null ==> r == Err::<Option<usize>, AutomatonError>(
                AutomatonError::UnsupportedBoundary,
            ),
    {
        match self.boundary_type {
            BoundaryType::Null => Ok(self.get_null_row_index(row_index, offset)),
            _ => Err(AutomatonError::UnsupportedBoundary),
        }
    }

    /// The column reached from `column_index` by the horizontal part of
    /// `offset`, or `None` where the step leaves the lattice.
    pub fn get_new_column_index(&self, column_index: usize, offset: &CompassDirection) -> (r:
        Result<Option<usize>, AutomatonError>)
        requires
            column_index < self.width(),
            offset.is_step(),
        ensures
            self.policy() == BoundaryType::Null ==> r == Ok::<Option<usize>, AutomatonError>(
                resolve_null(column_index, offset.x, self.width()),
            ),
            self.policy() != BoundaryType::Null ==> r == Err::<Option<usize>, AutomatonError>(
                AutomatonError::UnsupportedBoundary,
            ),
    {
        match self.boundary_type {
            BoundaryType::Null => Ok(self.get_null_column_index(column_index, offset)),
            _ => Err(AutomatonError::UnsupportedBoundary),
        }
    }

    fn get_null_row_index(&self, row_index: usize, offset: &CompassDirection) -> (r: Option<usize>)
        requires
            row_index < self.height(),
            offset.is_step(),
        ensures
            r == resolve_null(row_index, offset.y, self.height()),
    {
        if (row_index == 0 && offset.y < 0) || (row_index == self.height - 1 && offset.y > 0) {
            None
        } else if offset.y < 0 {
            Some(row_index - 1)
        } else if offset.y > 0 {
            Some(row_index + 1)
        } else {
            Some(row_index)
        }
    }

    fn get_null_column_index(&self, column_index: usize, offset: &CompassDirection) -> (r: Option<
        usize,
    >)
        requires
            column_index < self.width(),
            offset.is_step(),
        ensures
            r == resolve_null(column_index, offset.x, self.width()),
    {
        if (column_index == 0 && offset.x < 0) || (column_index == self.width - 1 && offset.x
            > 0) {
            None
        } else if offset.x < 0 {
            Some(column_index - 1)
        } else if offset.x > 0 {
            Some(column_index + 1)
        } else {
            Some(column_index)
        }
    }
}

} // verus!
