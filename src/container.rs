use vstd::prelude::*;

use crate::rect::{inside, Rect};

verus! {

/// Identifier of a panel; the host hands these out and keeps them unique.
#[derive(Clone, Copy, Debug, PartialEq, Eq, Structural)]
pub struct DockHandle(pub u64);

/// One named panel. It has no geometry of its own: it shares its container's rect.
#[derive(Debug)]
pub struct Dock {
    pub handle: DockHandle,
    pub name: String,
}

/// The ordered docks on one side of a split, with the rect that the layout pass gave them.
#[derive(Debug)]
pub struct Container {
    pub docks: Vec<Dock>,
    pub rect: Rect,
}

/// Whether some dock of `docks` has `h`.
pub open spec fn has_dock(docks: Seq<Dock>, h: DockHandle) -> bool {
    exists|i: int| 0 <= i < docks.len() && (#[trigger] docks[i]).handle == h
}

/// `i` is the first position of a dock with handle `h`.
pub open spec fn first_dock(docks: Seq<Dock>, h: DockHandle, i: int) -> bool {
    &&& 0 <= i < docks.len()
    &&& docks[i].handle == h
    &&& forall|j: int| 0 <= j < i ==> (#[trigger] docks[j]).handle != h
}

/// `i` is the last position of a dock with handle `h`.
pub open spec fn last_dock(docks: Seq<Dock>, h: DockHandle, i: int) -> bool {
    &&& 0 <= i < docks.len()
    &&& docks[i].handle == h
    &&& forall|j: int| i < j < docks.len() ==> (#[trigger] docks[j]).handle != h
}

/// The sequence after removing position `i` by moving the last element into it.
pub open spec fn swap_removed(docks: Seq<Dock>, i: int) -> Seq<Dock> {
    docks.update(i, docks.last()).drop_last()
}

/// Removing a dock with `h` keeps every other handle present or absent as it was.
pub proof fn lemma_swap_removed_keeps(docks: Seq<Dock>, h: DockHandle, k: int, d: DockHandle)
    requires
        0 <= k < docks.len(),
        docks[k].handle == h,
        d != h,
    ensures
        has_dock(swap_removed(docks, k), d) == has_dock(docks, d),
{
    let b = swap_removed(docks, k);
    let n = docks.len();
    if has_dock(docks, d) {
        let m = choose|m: int| 0 <= m < n && (#[trigger] docks[m]).handle == d;
        let j = if m == n - 1 { k } else { m };
        assert(b[j] == docks[m]);
    }
    if has_dock(b, d) {
        let j = choose|j: int| 0 <= j < b.len() && (#[trigger] b[j]).handle == d;
        let m = if j == k { n - 1 } else { j };
        assert(b[j] == docks[m]);
    }
}

impl Dock {
    /// A freshly opened dock, without a name.
    pub fn new(dock_handle: DockHandle) -> (r: Dock)
        ensures
            r.handle == dock_handle,
            r.name@ == Seq::<char>::empty(),
    {
        Dock { handle: dock_handle, name: String::new() }
    }

    /// A copy of the dock with the same handle and name.
    pub fn duplicate(&self) -> (r: Dock)
        ensures
            r == *self,
    {
        Dock { handle: self.handle, name: self.name.clone() }
    }
}

impl Container {
    /// An empty container with a zero rect.
    pub fn new() -> (r: Container)
        ensures
            r.docks@.len() == 0,
            r.rect == Rect::new_spec(0, 0, 0, 0),
    {
        Container { docks: Vec::new(), rect: Rect::new(0, 0, 0, 0) }
    }

    /// A copy of the container: the same docks in the same order, and the same rect.
    pub fn duplicate(&self) -> (r: Container)
        ensures
            r.docks@ == self.docks@,
            r.rect == self.rect,
    {
        let mut docks: Vec<Dock> = Vec::new();
        let mut i: usize = 0;
        while i < self.docks.len()
            invariant
                i <= self.docks.len(),
                docks@ == self.docks@.subrange(0, i as int),
            decreases self.docks.len() - i,
        {
            docks.push(self.docks[i].duplicate());
            i += 1;
        }
        assert(docks@ == self.docks@);
        Container { docks, rect: self.rect }
    }

    /// Renames the first dock with `handle`; false when there is none.
    pub fn set_dock_name(&mut self, name: &String, handle: DockHandle) -> (r: bool)
        ensures
            r == has_dock(old(self).docks@, handle),
            final(self).rect == old(self).rect,
            !r ==> *final(self) == *old(self),
            r ==> exists|i: int|
                first_dock(old(self).docks@, handle, i) && final(self).docks@
                    == old(self).docks@.update(i, Dock { handle, name: *name }),
    {
        let mut i: usize = 0;
        while i < self.docks.len()
            invariant
                i <= self.docks.len(),
                *self == *old(self),
                forall|j: int| 0 <= j < i ==> (#[trigger] self.docks@[j]).handle != handle,
            decreases self.docks.len() - i,
        {
            if self.docks[i].handle == handle {
                let d = Dock { handle, name: name.clone() };
                self.docks.set(i, d);
                assert(first_dock(old(self).docks@, handle, i as int));
                return true;
            }
            i += 1;
        }
        false
    }

    /// Whether the container holds a dock with `handle`.
    pub fn find_handle(&self, handle: DockHandle) -> (r: bool)
        ensures
            r == has_dock(self.docks@, handle),
    {
        let mut i: usize = 0;
        while i < self.docks.len()
            invariant
                i <= self.docks.len(),
                forall|j: int| 0 <= j < i ==> (#[trigger] self.docks@[j]).handle != handle,
            decreases self.docks.len() - i,
        {
            if self.docks[i].handle == handle {
                return true;
            }
            i += 1;
        }
        false
    }

    /// Removes the last dock with `handle`, moving the container's last dock into its place.
    pub fn remove_handle(&mut self, handle: DockHandle) -> (r: bool)
        ensures
            r == has_dock(old(self).docks@, handle),
            final(self).rect == old(self).rect,
            !r ==> *final(self) == *old(self),
            r ==> exists|i: int|
                last_dock(old(self).docks@, handle, i) && final(self).docks@ == swap_removed(
                    old(self).docks@,
                    i,
                ),
    {
        let mut i: usize = self.docks.len();
        while i > 0
            invariant
                i <= self.docks.len(),
                *self == *old(self),
                forall|j: int| i <= j < self.docks.len() ==> (#[trigger] self.docks@[j]).handle != handle,
            decreases i,
        {
            i -= 1;
            if self.docks[i].handle == handle {
                self.docks.swap_remove(i);
                assert(last_dock(old(self).docks@, handle, i as int));
                assert(self.docks@ == swap_removed(old(self).docks@, i as int));
                return true;
            }
        }
        false
    }

    /// The container's rect when it holds a dock with `handle`.
    pub fn get_rect_by_handle(&self, handle: DockHandle) -> (r: Option<Rect>)
        ensures
            r == (if has_dock(self.docks@, handle) { Some(self.rect) } else { None }),
    {
        if self.find_handle(handle) {
            Some(self.rect)
        } else {
            None
        }
    }

    /// The first dock, with the area of the container's rect, when `pos` lies in that rect.
    pub fn is_inside(&self, pos: (i32, i32)) -> (r: Option<(DockHandle, i64)>)
        ensures
            r == (if self.docks@.len() > 0 && inside(pos.0 as int, pos.1 as int,
                self.rect.x as int, self.rect.y as int, self.rect.width as int,
                self.rect.height as int) {
                Some((self.docks@[0].handle, (self.rect.width * self.rect.height) as i64))
            } else {
                None
            }),
            r matches Some(p) ==> p.1 == self.rect.width * self.rect.height,
    {
        if self.docks.len() > 0 && Rect::is_inside(pos, self.rect) {
            proof {
                assert(-0x8000_0000 * 0x8000_0000 <= (self.rect.width as int) * (self.rect.height as int)
                    <= 0x8000_0000 * 0x8000_0000) by (nonlinear_arith)
                    requires
                        -0x8000_0000 <= self.rect.width <= 0x8000_0000,
                        -0x8000_0000 <= self.rect.height <= 0x8000_0000,
                ;
            }
            let area = (self.rect.width as i64) * (self.rect.height as i64);
            Some((self.docks[0].handle, area))
        } else {
            None
        }
    }
}

} // verus!
