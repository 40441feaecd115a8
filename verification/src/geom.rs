use vstd::prelude::*;

verus! {

/// Orientation of a split: `X` places children left/right, `Y` top/bottom.
#[derive(Debug, Clone, Copy, PartialEq, Eq, Hash, Structural)]
pub enum Axis {
    X,
    Y,
}

impl Axis {
    /// The other axis.
    pub open spec fn spec_toggled(self) -> Axis {
        match self {
            Axis::X => Axis::Y,
            Axis::Y => Axis::X,
        }
    }

    #[must_use]
    pub fn toggled(self) -> (r: Self)
        ensures
            r == self.spec_toggled(),
            r != self,
    {
        match self {
            Self::X => Self::Y,
            Self::Y => Self::X,
        }
    }
}

/// Toggling the axis twice gives the axis back.
pub proof fn lemma_toggled_involution(axis: Axis)
    ensures
        axis.spec_toggled().spec_toggled() == axis,
        axis.spec_toggled() != axis,
{
}

/// Which child of a split a node occupies: `A` is leading (left/top), `B` trailing.
#[derive(Debug, Clone, Copy, PartialEq, Eq, Hash, Structural)]
pub enum Slot {
    A,
    B,
}

/// A screen direction used by navigation and resizing.
#[derive(Debug, Clone, Copy, PartialEq, Eq, Hash, Structural)]
pub enum Direction {
    Left,
    Right,
    Up,
    Down,
}

/// A half-open integer rectangle `[x, x + w) x [y, y + h)`.
#[derive(Debug, Clone, Copy, PartialEq, Eq, Hash, Structural)]
pub struct Rect {
    pub x: i32,
    pub y: i32,
    pub w: u32,
    pub h: u32,
}

impl Rect {
    /// Mathematical right edge.
    pub open spec fn spec_right(self) -> int {
        self.x + self.w
    }

    /// Mathematical bottom edge.
    pub open spec fn spec_bottom(self) -> int {
        self.y + self.h
    }

    /// Both far edges fit in `i32`.
    pub open spec fn edges_fit(self) -> bool {
        &&& self.w <= i32::MAX
        &&& self.h <= i32::MAX
        &&& self.x + self.w <= i32::MAX
        &&& self.y + self.h <= i32::MAX
    }

    /// Extent of the rectangle along `axis`.
    pub open spec fn spec_extent(self, axis: Axis) -> u32 {
        match axis {
            Axis::X => self.w,
            Axis::Y => self.h,
        }
    }

    /// The cell `(px, py)` lies inside the rectangle.
    pub open spec fn contains_point(self, px: int, py: int) -> bool {
        &&& self.x <= px < self.x + self.w
        &&& self.y <= py < self.y + self.h
    }

    /// The two parts of a split at `lead` along `axis` (the trailing part's
    /// extent saturates at zero).
    pub open spec fn spec_split(self, axis: Axis, lead: u32) -> (Rect, Rect) {
        let rest: u32 = if lead <= self.spec_extent(axis) {
            (self.spec_extent(axis) - lead) as u32
        } else {
            0
        };
        match axis {
            Axis::X => (
                Rect { x: self.x, y: self.y, w: lead, h: self.h },
                Rect { x: (self.x + lead) as i32, y: self.y, w: rest, h: self.h },
            ),
            Axis::Y => (
                Rect { x: self.x, y: self.y, w: self.w, h: lead },
                Rect { x: self.x, y: (self.y + lead) as i32, w: self.w, h: rest },
            ),
        }
    }

    /// Reflection of `self` across the centre line of `root` orthogonal to `axis`.
    pub open spec fn spec_mirrored(self, axis: Axis, root: Rect) -> Rect {
        match axis {
            Axis::X => Rect {
                x: (root.x + root.w - self.w - (self.x - root.x)) as i32,
                y: self.y,
                w: self.w,
                h: self.h,
            },
            Axis::Y => Rect {
                x: self.x,
                y: (root.y + root.h - self.h - (self.y - root.y)) as i32,
                w: self.w,
                h: self.h,
            },
        }
    }

    /// Twice the centre coordinate across `axis` (vertical centre for `X`).
    pub open spec fn spec_center_twice_orth(self, axis: Axis) -> int {
        match axis {
            Axis::X => self.y + self.y + self.h,
            Axis::Y => self.x + self.x + self.w,
        }
    }

    #[must_use]
    pub fn left(self) -> (r: i32)
        ensures
            r == self.x,
    {
        self.x
    }

    #[must_use]
    pub fn right(self) -> (r: i32)
        requires
            self.w <= i32::MAX,
            self.x + self.w <= i32::MAX,
        ensures
            r == self.spec_right(),
    {
        self.x + self.w as i32
    }

    #[must_use]
    pub fn top(self) -> (r: i32)
        ensures
            r == self.y,
    {
        self.y
    }

    #[must_use]
    pub fn bottom(self) -> (r: i32)
        requires
            self.h <= i32::MAX,
            self.y + self.h <= i32::MAX,
        ensures
            r == self.spec_bottom(),
    {
        self.y + self.h as i32
    }

    #[must_use]
    pub fn extent(self, axis: Axis) -> (r: u32)
        ensures
            r == self.spec_extent(axis),
    {
        match axis {
            Axis::X => self.w,
            Axis::Y => self.h,
        }
    }

    #[must_use]
    pub fn split(self, axis: Axis, lead_extent: u32) -> (r: (Self, Self))
        requires
            lead_extent <= i32::MAX,
            axis == Axis::X ==> self.x + lead_extent <= i32::MAX,
            axis == Axis::Y ==> self.y + lead_extent <= i32::MAX,
        ensures
            r == self.spec_split(axis, lead_extent),
    {
        match axis {
            Axis::X => {
                let right_x = self.x + lead_extent as i32;
                let rest = if lead_extent <= self.w {
                    self.w - lead_extent
                } else {
                    0
                };
                (
                    Self { x: self.x, y: self.y, w: lead_extent, h: self.h },
                    Self { x: right_x, y: self.y, w: rest, h: self.h },
                )
            },
            Axis::Y => {
                let bottom_y = self.y + lead_extent as i32;
                let rest = if lead_extent <= self.h {
                    self.h - lead_extent
                } else {
                    0
                };
                (
                    Self { x: self.x, y: self.y, w: self.w, h: lead_extent },
                    Self { x: self.x, y: bottom_y, w: self.w, h: rest },
                )
            },
        }
    }

    #[must_use]
    pub fn mirrored(self, axis: Axis, root: Self) -> (r: Self)
        requires
            self.w <= i32::MAX,
            self.h <= i32::MAX,
            root.edges_fit(),
            axis == Axis::X ==> {
                &&& i32::MIN <= root.x + root.w - self.w
                &&& i32::MIN <= self.x - root.x <= i32::MAX
                &&& i32::MIN <= root.x + root.w - self.w - (self.x - root.x) <= i32::MAX
            },
            axis == Axis::Y ==> {
                &&& i32::MIN <= root.y + root.h - self.h
                &&& i32::MIN <= self.y - root.y <= i32::MAX
                &&& i32::MIN <= root.y + root.h - self.h - (self.y - root.y) <= i32::MAX
            },
        ensures
            r == self.spec_mirrored(axis, root),
    {
        match axis {
            Axis::X => Self {
                x: root.right() - self.w as i32 - (self.x - root.left()),
                y: self.y,
                w: self.w,
                h: self.h,
            },
            Axis::Y => Self {
                x: self.x,
                y: root.bottom() - self.h as i32 - (self.y - root.top()),
                w: self.w,
                h: self.h,
            },
        }
    }

    #[must_use]
    pub fn center_twice_orth(self, axis: Axis) -> (r: i64)
        requires
            axis == Axis::X ==> self.h <= i32::MAX && self.y + self.h <= i32::MAX,
            axis == Axis::Y ==> self.w <= i32::MAX && self.x + self.w <= i32::MAX,
        ensures
            r == self.spec_center_twice_orth(axis),
    {
        match axis {
            Axis::X => self.top() as i64 + self.bottom() as i64,
            Axis::Y => self.left() as i64 + self.right() as i64,
        }
    }
}

/// Gap between the intervals `[a_start, a_end)` and `[b_start, b_end)`; zero when they overlap.
pub open spec fn spec_orth_gap(a_start: int, a_end: int, b_start: int, b_end: int) -> int {
    if a_end <= b_start {
        b_start - a_end
    } else if b_end <= a_start {
        a_start - b_end
    } else {
        0
    }
}

/// The differences that `orth_gap` computes fit in `i32`.
pub open spec fn orth_gap_fits(a_start: int, a_end: int, b_start: int, b_end: int) -> bool {
    &&& a_end <= b_start ==> b_start - a_end <= i32::MAX
    &&& (b_start < a_end && b_end <= a_start) ==> a_start - b_end <= i32::MAX
}

#[must_use]
pub fn orth_gap(a_start: i32, a_end: i32, b_start: i32, b_end: i32) -> (r: u32)
    requires
        orth_gap_fits(a_start as int, a_end as int, b_start as int, b_end as int),
    ensures
        r == spec_orth_gap(a_start as int, a_end as int, b_start as int, b_end as int),
{
    if a_end <= b_start {
        (b_start - a_end) as u32
    } else if b_end <= a_start {
        (a_start - b_end) as u32
    } else {
        0
    }
}

/// Splitting a rectangle at a lead extent no larger than its extent partitions
/// it: every cell of the rectangle lies in exactly one part, and no cell
/// outside it lies in either part.
pub proof fn lemma_split_partitions(r: Rect, axis: Axis, lead: u32, px: int, py: int)
    requires
        lead <= r.spec_extent(axis),
        r.edges_fit(),
    ensures
        ({
            let (a, b) = r.spec_split(axis, lead);
            &&& r.contains_point(px, py) <==> (a.contains_point(px, py) || b.contains_point(px, py))
            &&& !(a.contains_point(px, py) && b.contains_point(px, py))
            &&& a.spec_extent(axis) + b.spec_extent(axis) == r.spec_extent(axis)
        }),
{
}

/// Mirroring inside a root twice gives the rectangle back, and a rectangle
/// inside the root stays inside it.
pub proof fn lemma_mirrored_involution(r: Rect, axis: Axis, root: Rect)
    requires
        root.edges_fit(),
        root.x <= r.x,
        root.y <= r.y,
        r.x + r.w <= root.x + root.w,
        r.y + r.h <= root.y + root.h,
    ensures
        r.spec_mirrored(axis, root).spec_mirrored(axis, root) == r,
        r.spec_mirrored(axis, root).x >= root.x,
        r.spec_mirrored(axis, root).y >= root.y,
        r.spec_mirrored(axis, root).x + r.w <= root.x + root.w,
        r.spec_mirrored(axis, root).y + r.h <= root.y + root.h,
{
}

} // verus!
