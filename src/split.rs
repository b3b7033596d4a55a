use vstd::prelude::*;

use crate::container::{Container, Dock, DockHandle};
use crate::rect::{inside, Rect, RATIO_ONE};

verus! {

/// Smallest ratio that dragging a sizer can leave.
pub const RATIO_MIN: u32 = 100;

/// Largest ratio that dragging a sizer can leave.
pub const RATIO_MAX: u32 = 9900;

/// The ratio that gives both sides the same share.
pub const RATIO_HALF: u32 = 5000;

/// Identifier of a split node; 0 is the root.
#[derive(Clone, Copy, Debug, PartialEq, Eq, Structural)]
pub struct SplitHandle(pub u64);

#[derive(Clone, Copy, Debug, PartialEq, Eq, Structural)]
pub enum Direction {
    Vertical,
    Horizontal,
    Full,
}

/// A node of the split tree.
#[derive(Debug)]
pub struct Split {
    /// left/top child split
    pub left: Option<SplitHandle>,
    /// right/bottom child split
    pub right: Option<SplitHandle>,
    /// left/top docks
    pub left_docks: Container,
    /// right/bottom docks
    pub right_docks: Container,
    /// share of the left/top side, in units of `1 / RATIO_ONE`
    pub ratio: u32,
    pub direction: Direction,
    pub handle: SplitHandle,
    /// the rect that the layout pass gave this node
    pub rect: Rect,
}

/// The direction after a dock was placed: a node without one adopts the requested one.
pub open spec fn adopted(old_dir: Direction, requested: Direction) -> Direction {
    if old_dir == Direction::Full {
        requested
    } else {
        old_dir
    }
}

/// The ratio after a dock was placed: a side that holds neither docks nor a child gets
/// nothing, two occupied sides share the rect evenly.
pub open spec fn balanced_ratio(left_empty: bool, right_empty: bool) -> u32 {
    if right_empty {
        RATIO_ONE
    } else if left_empty {
        0
    } else {
        RATIO_HALF
    }
}

/// A container that holds exactly one freshly opened dock.
pub open spec fn holds_fresh_dock(c: Container, h: DockHandle) -> bool {
    c.docks@.len() == 1 && c.docks@[0].handle == h && c.docks@[0].name@.len() == 0
}

/// The two sides of `r` under a direction and a ratio.
pub open spec fn sub_rects(direction: Direction, r: Rect, ratio: int) -> (Rect, Rect) {
    match direction {
        Direction::Vertical => crate::rect::vertical_parts(r, ratio),
        Direction::Horizontal => crate::rect::horizontal_parts(r, ratio),
        Direction::Full => (r, r),
    }
}

/// The change of ratio for a pointer movement of `d` across a side of length `size`,
/// truncated toward zero; a side without length cannot be resized.
pub open spec fn ratio_step(d: int, size: int) -> int {
    if size <= 0 {
        0
    } else if d >= 0 {
        -((d * (RATIO_ONE as int)) / size)
    } else {
        ((-d) * (RATIO_ONE as int)) / size
    }
}

/// `v` brought into `[RATIO_MIN, RATIO_MAX]`.
pub open spec fn clamp_ratio(v: int) -> int {
    if v < RATIO_MIN {
        RATIO_MIN as int
    } else if v > RATIO_MAX {
        RATIO_MAX as int
    } else {
        v
    }
}

/// The sizer strip of a horizontal split: `size` thick, right below `r`.
pub open spec fn sizer_horizontal(r: Rect, size: int, px: int, py: int) -> bool {
    inside(px, py, r.x as int, r.y + r.height, r.width as int, size)
}

/// The sizer strip of a vertical split: `size` thick, right of `r`.
pub open spec fn sizer_vertical(r: Rect, size: int, px: int, py: int) -> bool {
    inside(px, py, r.x + r.width, r.y as int, size, r.height as int)
}

impl Split {
    /// The left/top side holds neither docks nor a child.
    pub open spec fn left_empty(&self) -> bool {
        self.left_docks.docks@.len() == 0 && self.left is None
    }

    /// The right/bottom side holds neither docks nor a child.
    pub open spec fn right_empty(&self) -> bool {
        self.right_docks.docks@.len() == 0 && self.right is None
    }

    /// How a dock is placed into an empty side without splitting (`placed` says whether it
    /// was): everything but the direction, the ratio and that side stays.
    pub open spec fn placed_post(
        old_s: Split,
        new_s: Split,
        direction: Direction,
        h: DockHandle,
        placed: bool,
    ) -> bool {
        &&& placed == (old_s.left_empty() || old_s.right_empty())
        &&& new_s.direction == adopted(old_s.direction, direction)
        &&& new_s.handle == old_s.handle
        &&& new_s.left == old_s.left
        &&& new_s.right == old_s.right
        &&& new_s.rect == old_s.rect
        &&& new_s.left_docks.rect == old_s.left_docks.rect
        &&& new_s.right_docks.rect == old_s.right_docks.rect
        &&& if old_s.left_empty() {
            &&& holds_fresh_dock(new_s.left_docks, h)
            &&& new_s.right_docks.docks@ == old_s.right_docks.docks@
            &&& new_s.ratio == balanced_ratio(false, old_s.right_empty())
        } else if old_s.right_empty() {
            &&& new_s.left_docks.docks@ == old_s.left_docks.docks@
            &&& holds_fresh_dock(new_s.right_docks, h)
            &&& new_s.ratio == balanced_ratio(old_s.left_empty(), false)
        } else {
            &&& new_s.left_docks.docks@ == old_s.left_docks.docks@
            &&& new_s.right_docks.docks@ == old_s.right_docks.docks@
            &&& new_s.ratio == old_s.ratio
        }
    }

    /// What `split_left` does: `a` becomes `b` and `r` is the node it creates, if any.
    pub open spec fn split_left_post(
        a: Split,
        b: Split,
        r: Option<Split>,
        split_handle: SplitHandle,
        dock_handle: DockHandle,
        direction: Direction,
    ) -> bool {
        &&& ((a.left_empty() || a.right_empty()) ==> r is None
                && Self::placed_post(a, b, direction, dock_handle, true))
        &&& (!(a.left_empty() || a.right_empty()) ==> (r matches Some(n) && {
                &&& n.handle == split_handle
                &&& n.direction == direction
                &&& n.ratio == RATIO_HALF
                &&& n.left is None
                &&& n.right is None
                &&& holds_fresh_dock(n.left_docks, dock_handle)
                &&& n.right_docks.docks@ == a.left_docks.docks@
                &&& b.left == Some(split_handle)
                &&& b.left_docks.docks@.len() == 0
                &&& b.right_docks.docks@ == a.right_docks.docks@
                &&& b.right == a.right
                &&& b.ratio == RATIO_HALF
                &&& b.direction == adopted(a.direction, direction)
            }))
        &&& (b.handle == a.handle)
        &&& (b.rect == a.rect)
        &&& (b.left_docks.rect == a.left_docks.rect)
        &&& (b.right_docks.rect == a.right_docks.rect)
    }

    /// What `split_right` does: `a` becomes `b` and `r` is the node it creates, if any.
    pub open spec fn split_right_post(
        a: Split,
        b: Split,
        r: Option<Split>,
        split_handle: SplitHandle,
        dock_handle: DockHandle,
        direction: Direction,
    ) -> bool {
        &&& ((a.left_empty() || a.right_empty()) ==> r is None
                && Self::placed_post(a, b, direction, dock_handle, true))
        &&& (!(a.left_empty() || a.right_empty()) ==> (r matches Some(n) && {
                &&& n.handle == split_handle
                &&& n.direction == direction
                &&& n.ratio == RATIO_HALF
                &&& n.left is None
                &&& n.right is None
                &&& n.left_docks.docks@ == a.right_docks.docks@
                &&& holds_fresh_dock(n.right_docks, dock_handle)
                &&& b.right == Some(split_handle)
                &&& b.right_docks.docks@.len() == 0
                &&& b.left_docks.docks@ == a.left_docks.docks@
                &&& b.left == a.left
                &&& b.ratio == RATIO_HALF
                &&& b.direction == adopted(a.direction, direction)
            }))
        &&& (b.handle == a.handle)
        &&& (b.rect == a.rect)
        &&& (b.left_docks.rect == a.left_docks.rect)
        &&& (b.right_docks.rect == a.right_docks.rect)
    }

    /// The ratio change that a pointer movement `delta` asks of this split.
    pub open spec fn drag_step(&self, delta: (i32, i32)) -> int {
        match self.direction {
            Direction::Vertical => ratio_step(delta.0 as int, self.rect.width as int),
            Direction::Horizontal => ratio_step(delta.1 as int, self.rect.height as int),
            Direction::Full => 0,
        }
    }

    /// A node with two empty sides.
    pub fn new(direction: Direction, ratio: u32, handle: SplitHandle) -> (r: Split)
        ensures
            r.left is None,
            r.right is None,
            r.left_docks.docks@.len() == 0,
            r.right_docks.docks@.len() == 0,
            r.left_docks.rect == Rect::new(0, 0, 0, 0),
            r.right_docks.rect == Rect::new(0, 0, 0, 0),
            r.ratio == ratio,
            r.direction == direction,
            r.handle == handle,
            r.rect == Rect::new(0, 0, 0, 0),
    {
        Split {
            left: None,
            right: None,
            left_docks: Container::new(),
            right_docks: Container::new(),
            ratio,
            direction,
            handle,
            rect: Rect::new(0, 0, 0, 0),
        }
    }

    /// Whether the left/top side is empty.
    pub fn is_left_zero_and_none(&self) -> (r: bool)
        ensures
            r == self.left_empty(),
    {
        self.left_docks.docks.len() == 0 && self.left.is_none()
    }

    /// Whether the right/bottom side is empty.
    pub fn is_right_zero_and_none(&self) -> (r: bool)
        ensures
            r == self.right_empty(),
    {
        self.right_docks.docks.len() == 0 && self.right.is_none()
    }

    fn adjust_ratio_after_add(&mut self)
        ensures
            final(self).ratio == balanced_ratio(old(self).left_empty(), old(self).right_empty()),
            final(self).left == old(self).left,
            final(self).right == old(self).right,
            final(self).left_docks == old(self).left_docks,
            final(self).right_docks == old(self).right_docks,
            final(self).direction == old(self).direction,
            final(self).handle == old(self).handle,
            final(self).rect == old(self).rect,
    {
        if self.is_right_zero_and_none() {
            self.ratio = RATIO_ONE;
        } else if self.is_left_zero_and_none() {
            self.ratio = 0;
        } else {
            self.ratio = RATIO_HALF;
        }
    }

    /// Places a new dock into the first empty side; false when neither side is empty.
    pub fn no_split(&mut self, direction: Direction, dock_handle: DockHandle) -> (r: bool)
        ensures
            Self::placed_post(*old(self), *final(self), direction, dock_handle, r),
    {
        if self.direction == Direction::Full {
            self.direction = direction;
        }
        if self.is_left_zero_and_none() {
            self.left_docks.docks.push(Dock::new(dock_handle));
            self.adjust_ratio_after_add();
            return true;
        }
        if self.is_right_zero_and_none() {
            self.right_docks.docks.push(Dock::new(dock_handle));
            self.adjust_ratio_after_add();
            return true;
        }
        false
    }

    /// Opens `dock_handle` on the left/top side. Where no side is empty, the left side
    /// moves into a new node `split_handle`, beside the new dock, and that node is returned.
    pub fn split_left(
        &mut self,
        split_handle: SplitHandle,
        dock_handle: DockHandle,
        direction: Direction,
    ) -> (r: Option<Split>)
        ensures
            Self::split_left_post(*old(self), *final(self), r, split_handle, dock_handle, direction),
    {
        if self.no_split(direction, dock_handle) {
            return None;
        }
        let mut split = Split::new(direction, RATIO_HALF, split_handle);
        split.right_docks = self.left_docks.duplicate();
        split.left_docks.docks.push(Dock::new(dock_handle));
        self.ratio = RATIO_HALF;
        self.left = Some(split_handle);
        self.left_docks.docks.clear();
        Some(split)
    }

    /// Mirror image of `split_left` on the right/bottom side.
    pub fn split_right(
        &mut self,
        split_handle: SplitHandle,
        dock_handle: DockHandle,
        direction: Direction,
    ) -> (r: Option<Split>)
        ensures
            Self::split_right_post(*old(self), *final(self), r, split_handle, dock_handle, direction),
    {
        if self.no_split(direction, dock_handle) {
            return None;
        }
        let mut split = Split::new(direction, RATIO_HALF, split_handle);
        split.left_docks = self.right_docks.duplicate();
        split.right_docks.docks.push(Dock::new(dock_handle));
        self.ratio = RATIO_HALF;
        self.right = Some(split_handle);
        self.right_docks.docks.clear();
        Some(split)
    }

    /// The sizer strip below `rect`, `size` thick.
    pub fn get_sizer_from_rect_horizontal(rect: Rect, size: i32) -> (r: Rect)
        requires
            rect.y + rect.height <= i32::MAX,
            rect.y + rect.height >= i32::MIN,
        ensures
            r == Rect::new(rect.x, (rect.y + rect.height) as i32, rect.width, size),
    {
        Rect::new(rect.x, rect.y + rect.height, rect.width, size)
    }

    /// The sizer strip right of `rect`, `size` thick.
    pub fn get_sizer_from_rect_vertical(rect: Rect, size: i32) -> (r: Rect)
        requires
            rect.x + rect.width <= i32::MAX,
            rect.x + rect.width >= i32::MIN,
        ensures
            r == Rect::new((rect.x + rect.width) as i32, rect.y, size, rect.height),
    {
        Rect::new(rect.x + rect.width, rect.y, size, rect.height)
    }

    /// Whether `pos` lies on the sizer strip that follows `rect` in this split's direction.
    pub fn is_hovering_rect(&self, pos: (i32, i32), border_size: i32, rect: Rect) -> (r: bool)
        ensures
            r == match self.direction {
                Direction::Horizontal => sizer_horizontal(rect, border_size as int, pos.0 as int, pos.1 as int),
                Direction::Vertical => sizer_vertical(rect, border_size as int, pos.0 as int, pos.1 as int),
                Direction::Full => false,
            },
    {
        let px = pos.0 as i64;
        let py = pos.1 as i64;
        let b = border_size as i64;
        match self.direction {
            Direction::Horizontal => {
                let y0 = rect.y as i64 + rect.height as i64;
                px >= rect.x as i64 && px < rect.x as i64 + rect.width as i64 && py >= y0 && py < y0 + b
            },
            Direction::Vertical => {
                let x0 = rect.x as i64 + rect.width as i64;
                px >= x0 && px < x0 + b && py >= rect.y as i64 && py < rect.y as i64 + rect.height as i64
            },
            Direction::Full => false,
        }
    }

    /// The ratio change for the pointer movement `delta`.
    pub fn map_rect_to_delta(&self, delta: (i32, i32)) -> (r: i64)
        ensures
            r == self.drag_step(delta),
            -(0x8000_0000 * RATIO_ONE) <= r <= 0x8000_0000 * RATIO_ONE,
    {
        match self.direction {
            Direction::Vertical => step_for(delta.0, self.rect.width),
            Direction::Horizontal => step_for(delta.1, self.rect.height),
            Direction::Full => 0,
        }
    }

    /// Drags the sizer by `delta`; the ratio stays within `[RATIO_MIN, RATIO_MAX]`.
    pub fn change_ratio(&mut self, delta: (i32, i32))
        ensures
            final(self).ratio == clamp_ratio(old(self).ratio + old(self).drag_step(delta)),
            RATIO_MIN <= final(self).ratio <= RATIO_MAX,
            final(self).left == old(self).left,
            final(self).right == old(self).right,
            final(self).left_docks == old(self).left_docks,
            final(self).right_docks == old(self).right_docks,
            final(self).direction == old(self).direction,
            final(self).handle == old(self).handle,
            final(self).rect == old(self).rect,
    {
        let scale = self.map_rect_to_delta(delta);
        let v: i64 = self.ratio as i64 + scale;
        if v < RATIO_MIN as i64 {
            self.ratio = RATIO_MIN;
        } else if v > RATIO_MAX as i64 {
            self.ratio = RATIO_MAX;
        } else {
            self.ratio = v as u32;
        }
    }
}

/// `ratio_step(d, size)` in machine integers.
fn step_for(d: i32, size: i32) -> (r: i64)
    ensures
        r == ratio_step(d as int, size as int),
        -(0x8000_0000 * RATIO_ONE) <= r <= 0x8000_0000 * RATIO_ONE,
{
    if size <= 0 {
        return 0;
    }
    let neg = d < 0;
    let m: u64 = if neg { (-(d as i64)) as u64 } else { d as u64 };
    proof {
        assert(m * (RATIO_ONE as int) <= 0x8000_0000 * RATIO_ONE) by (nonlinear_arith)
            requires m <= 0x8000_0000;
        assert((m * (RATIO_ONE as int)) / (size as int) <= m * (RATIO_ONE as int)) by (nonlinear_arith)
            requires m >= 0, size >= 1;
        assert((m * (RATIO_ONE as int)) / (size as int) >= 0) by (nonlinear_arith)
            requires m >= 0, size >= 1;
    }
    let q: u64 = m * (RATIO_ONE as u64) / (size as u64);
    if neg {
        q as i64
    } else {
        -(q as i64)
    }
}

} // verus!
