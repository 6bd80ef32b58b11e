use vstd::prelude::*;

verus! {

/// X or Y axis.
#[derive(Debug, Clone, Copy, PartialEq, Eq, Structural)]
pub enum Axis {
    /// Horizontal X-Axis
    X,
    /// Vertical Y-axis
    Y,
}

impl Axis {
    /// Index of the axis in `(x, y)` pairs.
    pub open spec fn index(self) -> usize {
        match self {
            Axis::X => 0,
            Axis::Y => 1,
        }
    }
}

impl From<Axis> for usize {
    fn from(value: Axis) -> (r: usize)
        ensures
            r == value.index(),
    {
        match value {
            Axis::X => 0,
            Axis::Y => 1,
        }
    }
}

impl vstd::std_specs::convert::FromSpecImpl<Axis> for usize {
    open spec fn obeys_from_spec() -> bool {
        true
    }

    open spec fn from_spec(v: Axis) -> usize {
        v.index()
    }
}

/// Placement of the horizontal X-Axis.
#[derive(Debug, Clone, Copy, PartialEq, Eq, Structural)]
pub enum VPlacement {
    Top,
    Bottom,
}

/// Placement of the vertical Y-Axis.
#[derive(Debug, Clone, Copy, PartialEq, Eq, Structural)]
pub enum HPlacement {
    Left,
    Right,
}

/// Placement of an axis.
#[derive(Debug, Clone, Copy, PartialEq, Eq, Structural)]
pub enum Placement {
    /// Bottom for X-axis, or left for Y-axis.
    LeftBottom,
    /// Top for x-axis and right for y-axis.
    RightTop,
}

pub open spec fn placement_of_h(p: HPlacement) -> Placement {
    match p {
        HPlacement::Left => Placement::LeftBottom,
        HPlacement::Right => Placement::RightTop,
    }
}

pub open spec fn h_of_placement(p: Placement) -> HPlacement {
    match p {
        Placement::LeftBottom => HPlacement::Left,
        Placement::RightTop => HPlacement::Right,
    }
}

pub open spec fn placement_of_v(p: VPlacement) -> Placement {
    match p {
        VPlacement::Top => Placement::RightTop,
        VPlacement::Bottom => Placement::LeftBottom,
    }
}

pub open spec fn v_of_placement(p: Placement) -> VPlacement {
    match p {
        Placement::LeftBottom => VPlacement::Bottom,
        Placement::RightTop => VPlacement::Top,
    }
}

impl From<HPlacement> for Placement {
    fn from(placement: HPlacement) -> (r: Self)
        ensures
            r == placement_of_h(placement),
    {
        match placement {
            HPlacement::Left => Placement::LeftBottom,
            HPlacement::Right => Placement::RightTop,
        }
    }
}

impl vstd::std_specs::convert::FromSpecImpl<HPlacement> for Placement {
    open spec fn obeys_from_spec() -> bool {
        true
    }

    open spec fn from_spec(v: HPlacement) -> Placement {
        placement_of_h(v)
    }
}

impl From<Placement> for HPlacement {
    fn from(placement: Placement) -> (r: Self)
        ensures
            r == h_of_placement(placement),
    {
        match placement {
            Placement::LeftBottom => HPlacement::Left,
            Placement::RightTop => HPlacement::Right,
        }
    }
}

impl vstd::std_specs::convert::FromSpecImpl<Placement> for HPlacement {
    open spec fn obeys_from_spec() -> bool {
        true
    }

    open spec fn from_spec(v: Placement) -> HPlacement {
        h_of_placement(v)
    }
}

impl From<VPlacement> for Placement {
    fn from(placement: VPlacement) -> (r: Self)
        ensures
            r == placement_of_v(placement),
    {
        match placement {
            VPlacement::Top => Placement::RightTop,
            VPlacement::Bottom => Placement::LeftBottom,
        }
    }
}

impl vstd::std_specs::convert::FromSpecImpl<VPlacement> for Placement {
    open spec fn obeys_from_spec() -> bool {
        true
    }

    open spec fn from_spec(v: VPlacement) -> Placement {
        placement_of_v(v)
    }
}

impl From<Placement> for VPlacement {
    fn from(placement: Placement) -> (r: Self)
        ensures
            r == v_of_placement(placement),
    {
        match placement {
            Placement::LeftBottom => VPlacement::Bottom,
            Placement::RightTop => VPlacement::Top,
        }
    }
}

impl vstd::std_specs::convert::FromSpecImpl<Placement> for VPlacement {
    open spec fn obeys_from_spec() -> bool {
        true
    }

    open spec fn from_spec(v: Placement) -> VPlacement {
        v_of_placement(v)
    }
}

/// A reset operation.
#[derive(Clone, Copy, Debug, PartialEq, Eq, Structural)]
pub enum ResetBehavior {
    /// Restore the original bounds from the first frame the plot was shown.
    OriginalBounds,
}

} // verus!
