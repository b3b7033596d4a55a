use vstd::prelude::*;

use crate::container::{first_dock, has_dock, last_dock, lemma_swap_removed_keeps, swap_removed, Container, Dock, DockHandle};
use crate::rect::{divisible, inside, horizontal_parts, ratio_part, vertical_parts, Rect, RATIO_ONE};
use crate::split::{clamp_ratio, holds_fresh_dock, sizer_horizontal, sizer_vertical, sub_rects, RATIO_MAX, RATIO_MIN, Direction, Split, SplitHandle};

verus! {

/// Thickness of the sizer strip that hover queries test.
pub const SIZER_BORDER: i32 = 8;

/// What a workspace operation can fail with.
#[derive(Clone, Copy, Debug, PartialEq, Eq, Structural)]
pub enum Error {
    /// The root rect has a negative origin or a size that is not positive.
    InvalidRect,
    /// A document does not describe a workspace.
    DocumentParse,
}

/// The arena of split nodes that partitions the root rect.
#[derive(Debug)]
pub struct Workspace {
    pub splits: Vec<Split>,
    pub rect: Rect,
    /// border size of the windows (in canvas units)
    pub window_border: i32,
    /// the last split handle handed out
    pub handle_counter: SplitHandle,
}

/// Whether some node of `splits` has handle `h`.
pub open spec fn has_split(splits: Seq<Split>, h: SplitHandle) -> bool {
    exists|i: int| 0 <= i < splits.len() && (#[trigger] splits[i]).handle == h
}

/// `i` is the first position of a node with handle `h`.
pub open spec fn first_split(splits: Seq<Split>, h: SplitHandle, i: int) -> bool {
    &&& 0 <= i < splits.len()
    &&& splits[i].handle == h
    &&& forall|j: int| 0 <= j < i ==> (#[trigger] splits[j]).handle != h
}

/// Every child reference names a node of the arena, and every ratio is a fraction.
pub open spec fn arena_ok(splits: Seq<Split>) -> bool {
    forall|i: int|
        0 <= i < splits.len() ==> {
            &&& (#[trigger] splits[i]).ratio <= RATIO_ONE
            &&& (splits[i].left matches Some(h) ==> has_split(splits, h))
            &&& (splits[i].right matches Some(h) ==> has_split(splits, h))
        }
}

/// A rect is acceptable as the root of a workspace.
pub open spec fn valid_root(r: Rect) -> bool {
    r.x >= 0 && r.y >= 0 && r.width > 0 && r.height > 0
}

/// The node has `r` and its containers have the sides of `r`.
pub open spec fn laid_out(s: Split, r: Rect) -> bool {
    &&& s.rect == r
    &&& s.left_docks.rect == sub_rects(s.direction, r, s.ratio as int).0
    &&& s.right_docks.rect == sub_rects(s.direction, r, s.ratio as int).1
}

/// Two nodes that differ at most in the rects that the layout pass computes.
pub open spec fn same_node(a: Split, b: Split) -> bool {
    &&& a.left == b.left
    &&& a.right == b.right
    &&& a.left_docks.docks@ == b.left_docks.docks@
    &&& a.right_docks.docks@ == b.right_docks.docks@
    &&& a.ratio == b.ratio
    &&& a.direction == b.direction
    &&& a.handle == b.handle
}

/// Two arenas that differ at most in computed rects.
pub open spec fn same_shape(a: Seq<Split>, b: Seq<Split>) -> bool {
    a.len() == b.len() && forall|i: int| 0 <= i < a.len() ==> same_node(#[trigger] a[i], b[i])
}

/// Every node either kept its rects or is laid out in the rect it holds, which is divisible.
pub open spec fn rects_consistent(a: Seq<Split>, b: Seq<Split>) -> bool {
    forall|i: int|
        0 <= i < a.len() ==> {
            ||| (#[trigger] b[i]).rect == a[i].rect && b[i].left_docks.rect == a[i].left_docks.rect
                && b[i].right_docks.rect == a[i].right_docks.rect
            ||| laid_out(b[i], b[i].rect) && divisible(b[i].rect)
        }
}

/// Arenas that differ only in computed rects have the same handles and the same links.
pub proof fn lemma_same_shape(a: Seq<Split>, b: Seq<Split>)
    requires
        same_shape(a, b),
    ensures
        forall|h: SplitHandle| #[trigger] has_split(a, h) == has_split(b, h),
        forall|h: SplitHandle, i: int| #[trigger] first_split(a, h, i) == first_split(b, h, i),
        arena_ok(a) ==> arena_ok(b),
{
    assert forall|h: SplitHandle| #[trigger] has_split(a, h) == has_split(b, h) by {
        if has_split(a, h) {
            let i = choose|i: int| 0 <= i < a.len() && (#[trigger] a[i]).handle == h;
            assert(same_node(a[i], b[i]));
        }
        if has_split(b, h) {
            let i = choose|i: int| 0 <= i < b.len() && (#[trigger] b[i]).handle == h;
            assert(same_node(a[i], b[i]));
        }
    }
    assert forall|h: SplitHandle, i: int| #[trigger] first_split(a, h, i) == first_split(b, h, i) by {
        if 0 <= i < a.len() {
            assert(same_node(a[i], b[i]));
            assert forall|j: int| 0 <= j < i implies a[j].handle == b[j].handle by {
                assert(same_node(a[j], b[j]));
            }
        }
    }
    if arena_ok(a) {
        assert forall|i: int| 0 <= i < b.len() implies {
            &&& (#[trigger] b[i]).ratio <= RATIO_ONE
            &&& (b[i].left matches Some(h) ==> has_split(b, h))
            &&& (b[i].right matches Some(h) ==> has_split(b, h))
        } by {
            assert(same_node(a[i], b[i]));
        }
    }
}

/// Whether some container of `splits` holds a dock with `h`.
pub open spec fn dock_in_arena(splits: Seq<Split>, h: DockHandle) -> bool {
    exists|i: int| 0 <= i < splits.len() && node_holds(#[trigger] splits[i], h)
}

/// A created node as a sequence of at most one node.
pub open spec fn opt_node(r: Option<Split>) -> Seq<Split> {
    match r {
        Some(n) => seq![n],
        None => Seq::empty(),
    }
}

/// The nodes that one step of `split_by_dock_handle` creates.
pub open spec fn made_by(w: (Split, Option<Split>, Option<Split>)) -> Seq<Split> {
    opt_node(w.1) + opt_node(w.2)
}

/// One step of `split_by_dock_handle` on node `a`, leaving `b`: `split_left` where its left
/// container holds `find` (giving node `w.0` and creating `w.1`), then `split_right` where
/// the right container of `w.0` holds `find` (creating `w.2`).
pub open spec fn step_post(
    a: Split,
    b: Split,
    w: (Split, Option<Split>, Option<Split>),
    sh: SplitHandle,
    find: DockHandle,
    handle: DockHandle,
    direction: Direction,
) -> bool {
    &&& if has_dock(a.left_docks.docks@, find) {
        Split::split_left_post(a, w.0, w.1, sh, handle, direction)
    } else {
        w.0 == a && w.1 is None
    }
    &&& if has_dock(w.0.right_docks.docks@, find) {
        Split::split_right_post(w.0, b, w.2, sh, handle, direction)
    } else {
        b == w.0 && w.2 is None
    }
}

/// The nodes that the steps `ws` create, in order.
pub open spec fn made_all(ws: Seq<(Split, Option<Split>, Option<Split>)>) -> Seq<Split>
    decreases ws.len(),
{
    if ws.len() == 0 {
        Seq::empty()
    } else {
        made_all(ws.drop_last()) + made_by(ws.last())
    }
}

/// `split_by_dock_handle` turned arena `a` into `b` by steps `ws`: every old node went
/// through its step, and the created nodes follow, in scan order, and nothing else.
pub open spec fn arena_split_post(
    a: Seq<Split>,
    b: Seq<Split>,
    ws: Seq<(Split, Option<Split>, Option<Split>)>,
    sh: SplitHandle,
    find: DockHandle,
    handle: DockHandle,
    direction: Direction,
) -> bool {
    &&& ws.len() == a.len()
    &&& b.len() >= a.len()
    &&& forall|i: int| 0 <= i < a.len() ==> step_post(a[i], #[trigger] b[i], ws[i], sh, find, handle, direction)
    &&& b.subrange(a.len() as int, b.len() as int) == made_all(ws)
}

/// One step creates no more nodes than the node holds docks with the target handle.
proof fn lemma_step_bound(
    a: Split,
    b: Split,
    w: (Split, Option<Split>, Option<Split>),
    sh: SplitHandle,
    find: DockHandle,
    handle: DockHandle,
    direction: Direction,
)
    requires
        step_post(a, b, w, sh, find, handle, direction),
        handle != find,
    ensures
        made_by(w).len() <= node_count(a, find),
{
    lemma_count_present(a.left_docks.docks@, find);
    lemma_count_present(a.right_docks.docks@, find);
    let m = w.0;
    if has_dock(m.right_docks.docks@, find) {
        // the right container of `m` holds the target only if that of `a` did
        if m.right_docks.docks@ != a.right_docks.docks@ {
            assert(holds_fresh_dock(m.right_docks, handle));
            let k = choose|k: int| 0 <= k < m.right_docks.docks@.len() && (#[trigger] m.right_docks.docks@[k]).handle == find;
            assert(false);
        }
    }
}

/// The steps of `split_by_dock_handle` create no more nodes than the arena holds docks with
/// the target handle.
proof fn lemma_made_bound(
    a: Seq<Split>,
    b: Seq<Split>,
    ws: Seq<(Split, Option<Split>, Option<Split>)>,
    sh: SplitHandle,
    find: DockHandle,
    handle: DockHandle,
    direction: Direction,
)
    requires
        ws.len() == a.len(),
        b.len() >= a.len(),
        forall|i: int| 0 <= i < a.len() ==> step_post(a[i], #[trigger] b[i], ws[i], sh, find, handle, direction),
        handle != find,
    ensures
        made_all(ws).len() <= dock_count(a, find),
    decreases a.len(),
{
    if a.len() > 0 {
        let n = a.len() - 1;
        assert(step_post(a[n], b[n], ws[n], sh, find, handle, direction));
        lemma_step_bound(a[n], b[n], ws[n], sh, find, handle, direction);
        assert forall|i: int| 0 <= i < a.drop_last().len() implies step_post(a.drop_last()[i], #[trigger] b[i], ws.drop_last()[i], sh, find, handle, direction) by {
            assert(step_post(a[i], b[i], ws[i], sh, find, handle, direction));
        }
        lemma_made_bound(a.drop_last(), b, ws.drop_last(), sh, find, handle, direction);
    }
}

/// A node that a split created: handle `sh`, no children yet, an even ratio, the requested
/// direction, and the new dock alone on one side.
pub open spec fn new_node(s: Split, sh: SplitHandle, direction: Direction, dock: DockHandle) -> bool {
    &&& s.handle == sh
    &&& s.left is None
    &&& s.right is None
    &&& s.ratio == crate::split::RATIO_HALF
    &&& s.direction == direction
    &&& (holds_fresh_dock(s.left_docks, dock) || holds_fresh_dock(s.right_docks, dock))
}

/// Whether a container of node `s` holds a dock with `h`.
pub open spec fn node_holds(s: Split, h: DockHandle) -> bool {
    has_dock(s.left_docks.docks@, h) || has_dock(s.right_docks.docks@, h)
}

/// `b` is `a` with the last dock that has `h` taken out, the last dock moving into its place.
pub open spec fn removed_from(a: Container, b: Container, h: DockHandle) -> bool {
    b.rect == a.rect && exists|k: int| last_dock(a.docks@, h, k) && b.docks@ == swap_removed(a.docks@, k)
}

/// `b` is node `a` after its first container that holds `h` lost that dock.
pub open spec fn node_removed(a: Split, b: Split, h: DockHandle) -> bool {
    &&& b.left == a.left
    &&& b.right == a.right
    &&& b.ratio == a.ratio
    &&& b.direction == a.direction
    &&& b.handle == a.handle
    &&& b.rect == a.rect
    &&& if has_dock(a.left_docks.docks@, h) {
        removed_from(a.left_docks, b.left_docks, h) && b.right_docks == a.right_docks
    } else {
        b.left_docks == a.left_docks && removed_from(a.right_docks, b.right_docks, h)
    }
}

/// The ratio that gives an empty side nothing.
pub open spec fn normalized_ratio(s: Split) -> u32 {
    if s.left_empty() {
        0
    } else if s.right_empty() {
        RATIO_ONE
    } else {
        s.ratio
    }
}

/// No node but the root has two empty sides.
pub open spec fn merged(splits: Seq<Split>) -> bool {
    forall|i: int|
        0 <= i < splits.len() && (#[trigger] splits[i]).handle != SplitHandle(0) ==> !(
        splits[i].left_empty() && splits[i].right_empty())
}

/// Every node with an empty side gives the other side the whole rect.
pub open spec fn ratios_normalized(splits: Seq<Split>) -> bool {
    forall|i: int| 0 <= i < splits.len() ==> (#[trigger] splits[i]).ratio == normalized_ratio(splits[i])
}

/// What deleting dock `h` does to an arena that is a single node `a`, leaving `b`.
pub open spec fn single_node_deleted(a: Split, b: Split, h: DockHandle) -> bool {
    &&& b.left == a.left
    &&& b.right == a.right
    &&& b.handle == a.handle
    &&& if has_dock(a.left_docks.docks@, h) {
        removed_from(a.left_docks, b.left_docks, h) && b.right_docks.docks@ == a.right_docks.docks@
    } else if has_dock(a.right_docks.docks@, h) {
        b.left_docks.docks@ == a.left_docks.docks@ && removed_from(a.right_docks, b.right_docks, h)
    } else {
        b.left_docks.docks@ == a.left_docks.docks@ && b.right_docks.docks@ == a.right_docks.docks@
    }
    &&& b.direction == (if b.left_empty() && b.right_empty() {
        Direction::Full
    } else {
        a.direction
    })
    &&& b.ratio == normalized_ratio(b)
}

/// Closing the only dock on one side of a lone two-sided root and then the only dock on the
/// other side leaves a lone root with two empty sides and no direction.
pub proof fn lemma_delete_both_sides(
    w0: Workspace,
    w1: Workspace,
    w2: Workspace,
    a: DockHandle,
    b: DockHandle,
)
    requires
        w0.splits@.len() == 1,
        w0.splits@[0].left is None,
        w0.splits@[0].right is None,
        w0.splits@[0].left_docks.docks@.len() == 1,
        w0.splits@[0].left_docks.docks@[0].handle == a,
        w0.splits@[0].right_docks.docks@.len() == 1,
        w0.splits@[0].right_docks.docks@[0].handle == b,
        a != b,
        w1.splits@.len() == 1 && single_node_deleted(w0.splits@[0], w1.splits@[0], a),
        w2.splits@.len() == 1 && single_node_deleted(w1.splits@[0], w2.splits@[0], b),
    ensures
        w2.splits@.len() == 1,
        w2.splits@[0].direction == Direction::Full,
        w2.splits@[0].left_empty(),
        w2.splits@[0].right_empty(),
{
    let s0 = w0.splits@[0];
    let s1 = w1.splits@[0];
    let s2 = w2.splits@[0];
    assert(has_dock(s0.left_docks.docks@, a)) by {
        assert(s0.left_docks.docks@[0].handle == a);
    }
    let k = choose|k: int| last_dock(s0.left_docks.docks@, a, k) && s1.left_docks.docks@ == swap_removed(
        s0.left_docks.docks@, k);
    assert(s1.left_docks.docks@.len() == 0);
    assert(s1.right_docks.docks@ == s0.right_docks.docks@);
    assert(has_dock(s1.right_docks.docks@, b)) by {
        assert(s1.right_docks.docks@[0].handle == b);
    }
    let k2 = choose|k: int| last_dock(s1.right_docks.docks@, b, k) && s2.right_docks.docks@ == swap_removed(
        s1.right_docks.docks@, k);
    assert(s2.right_docks.docks@.len() == 0);
}

/// `b` is node `a` after its first container that holds `h` renamed that dock to `name`.
pub open spec fn renamed_in(a: Split, b: Split, h: DockHandle, name: Seq<char>) -> bool {
    &&& b.left == a.left
    &&& b.right == a.right
    &&& b.ratio == a.ratio
    &&& b.direction == a.direction
    &&& b.handle == a.handle
    &&& b.rect == a.rect
    &&& if has_dock(a.left_docks.docks@, h) {
        renamed(a.left_docks, b.left_docks, h, name) && b.right_docks == a.right_docks
    } else {
        b.left_docks == a.left_docks && renamed(a.right_docks, b.right_docks, h, name)
    }
}

/// `b` is `a` with the first dock that has `h` renamed to `name`.
pub open spec fn renamed(a: Container, b: Container, h: DockHandle, name: Seq<char>) -> bool {
    b.rect == a.rect && exists|k: int|
        first_dock(a.docks@, h, k) && b.docks@.len() == a.docks@.len() && b.docks@[k].handle == h
            && b.docks@[k].name@ == name && forall|j: int|
            0 <= j < a.docks@.len() && j != k ==> #[trigger] b.docks@[j] == a.docks@[j]
}

/// Whether `pos` falls in a container that holds docks.
pub open spec fn hit(c: Container, pos: (i32, i32)) -> bool {
    c.docks@.len() > 0 && inside(pos.0 as int, pos.1 as int, c.rect.x as int, c.rect.y as int,
        c.rect.width as int, c.rect.height as int)
}

/// The area of a container's rect.
pub open spec fn area(c: Container) -> int {
    c.rect.width * c.rect.height
}

/// Whether some container among the first `n` nodes is hit by `pos`.
pub open spec fn any_hit(splits: Seq<Split>, n: int, pos: (i32, i32)) -> bool {
    exists|i: int| 0 <= i < n && (hit((#[trigger] splits[i]).left_docks, pos) || hit(splits[i].right_docks, pos))
}

/// No container among the first `n` nodes is hit with an area below `a`.
pub open spec fn no_smaller_hit(splits: Seq<Split>, n: int, pos: (i32, i32), a: int) -> bool {
    forall|i: int|
        0 <= i < n ==> (hit((#[trigger] splits[i]).left_docks, pos) ==> area(splits[i].left_docks) >= a)
            && (hit(splits[i].right_docks, pos) ==> area(splits[i].right_docks) >= a)
}

/// Container `c` is hit by `pos` and its first dock is `d`.
pub open spec fn hit_by(c: Container, pos: (i32, i32), d: DockHandle) -> bool {
    hit(c, pos) && c.docks@[0].handle == d
}

/// The left/top (`right` false) or right/bottom container of node `s`.
pub open spec fn side_of(s: Split, right: bool) -> Container {
    if right {
        s.right_docks
    } else {
        s.left_docks
    }
}

/// Every container that comes before side `right` of node `k` in scan order (node by node,
/// left before right) and that `pos` hits is larger than `a`.
pub open spec fn none_before(splits: Seq<Split>, k: int, right: bool, pos: (i32, i32), a: int) -> bool {
    &&& forall|j: int|
        0 <= j < k ==> (hit((#[trigger] splits[j]).left_docks, pos) ==> area(splits[j].left_docks) > a) && (hit(
            splits[j].right_docks,
            pos,
        ) ==> area(splits[j].right_docks) > a)
    &&& (right ==> (hit(splits[k].left_docks, pos) ==> area(splits[k].left_docks) > a))
}

/// Dock `d` is the first dock of side `right` of node `k`: a container that `pos` hits, of
/// the smallest area among the first `n` nodes, and the earliest of that area in scan order.
pub open spec fn hover_pick(splits: Seq<Split>, n: int, pos: (i32, i32), k: int, right: bool, d: DockHandle) -> bool {
    &&& 0 <= k < n
    &&& hit_by(side_of(splits[k], right), pos, d)
    &&& no_smaller_hit(splits, n, pos, area(side_of(splits[k], right)))
    &&& none_before(splits, k, right, pos, area(side_of(splits[k], right)))
}

/// Dock `d` is the one under `pos`: the first dock of the smallest container hit, the
/// earliest of that area in scan order.
pub open spec fn hovered(splits: Seq<Split>, pos: (i32, i32), d: DockHandle) -> bool {
    exists|k: int, right: bool| #[trigger] hover_pick(splits, splits.len() as int, pos, k, right, d)
}

/// Whether `pos` lies on the sizer strip of node `s`.
pub open spec fn on_sizer(s: Split, pos: (i32, i32)) -> bool {
    match s.direction {
        Direction::Horizontal => sizer_horizontal(s.left_docks.rect, SIZER_BORDER as int, pos.0 as int, pos.1 as int),
        Direction::Vertical => sizer_vertical(s.left_docks.rect, SIZER_BORDER as int, pos.0 as int, pos.1 as int),
        Direction::Full => false,
    }
}

/// Every dock of the arena: node by node, left side before right side.
pub open spec fn all_docks(splits: Seq<Split>) -> Seq<Dock>
    decreases splits.len(),
{
    if splits.len() == 0 {
        Seq::empty()
    } else {
        all_docks(splits.drop_last()) + splits.last().left_docks.docks@ + splits.last().right_docks.docks@
    }
}

/// The node `n` laid out in `r`: its rect and the sides of `r` for its containers.
pub open spec fn with_rects(n: Split, r: Rect) -> Split {
    Split {
        rect: r,
        left_docks: Container { rect: sub_rects(n.direction, r, n.ratio as int).0, ..n.left_docks },
        right_docks: Container { rect: sub_rects(n.direction, r, n.ratio as int).1, ..n.right_docks },
        ..n
    }
}

/// The position of the first node with handle `h`.
pub open spec fn index_of(s: Seq<Split>, h: SplitHandle) -> int {
    choose|i: int| first_split(s, h, i)
}

/// The arena after laying out the subtree of `h` in `r`, `depth` levels deep: the children
/// first, left before right, then the node itself.
pub open spec fn layout(s: Seq<Split>, r: Rect, h: SplitHandle, depth: nat) -> Seq<Split>
    decreases depth,
{
    let i = index_of(s, h);
    let n = s[i];
    let rs = sub_rects(n.direction, r, n.ratio as int);
    let s1 = if depth > 0 && n.left is Some {
        layout(s, rs.0, n.left.unwrap(), (depth - 1) as nat)
    } else {
        s
    };
    let s2 = if depth > 0 && n.right is Some {
        layout(s1, rs.1, n.right.unwrap(), (depth - 1) as nat)
    } else {
        s1
    };
    s2.update(i, with_rects(s2[i], r))
}

/// The node with every computed rect cleared.
pub open spec fn cleared_node(n: Split) -> Split {
    let z = Rect { x: 0, y: 0, width: 0, height: 0 };
    Split {
        rect: z,
        left_docks: Container { rect: z, ..n.left_docks },
        right_docks: Container { rect: z, ..n.right_docks },
        ..n
    }
}

/// The arena with every computed rect cleared.
pub open spec fn cleared(s: Seq<Split>) -> Seq<Split> {
    s.map_values(|n: Split| cleared_node(n))
}

/// Laying out two arenas that differ only in computed rects, from the same root rect,
/// gives every node and every container the same rect.
pub proof fn lemma_layout_same(a: Seq<Split>, b: Seq<Split>, r: Rect)
    requires
        same_shape(a, b),
        arena_ok(a),
        has_split(a, SplitHandle(0)),
    ensures
        same_shape(
            layout(cleared(a), r, SplitHandle(0), a.len()),
            layout(cleared(b), r, SplitHandle(0), b.len()),
        ),
        same_rects(
            layout(cleared(a), r, SplitHandle(0), a.len()),
            layout(cleared(b), r, SplitHandle(0), b.len()),
        ),
{
    let ca = cleared(a);
    let cb = cleared(b);
    assert(same_shape(a, ca)) by {
        assert forall|i: int| 0 <= i < a.len() implies same_node(#[trigger] a[i], ca[i]) by {}
    }
    assert(same_shape(ca, cb)) by {
        assert forall|i: int| 0 <= i < ca.len() implies same_node(#[trigger] ca[i], cb[i]) by {
            assert(same_node(a[i], b[i]));
        }
    }
    assert(same_rects(ca, cb));
    lemma_same_shape(a, ca);
    lemma_layout_congruent(ca, cb, r, SplitHandle(0), a.len());
}

/// Two arenas whose nodes hold the same computed rects.
pub open spec fn same_rects(a: Seq<Split>, b: Seq<Split>) -> bool {
    a.len() == b.len() && forall|i: int|
        0 <= i < a.len() ==> (#[trigger] a[i]).rect == b[i].rect && a[i].left_docks.rect
            == b[i].left_docks.rect && a[i].right_docks.rect == b[i].right_docks.rect
}

/// There is one first node with a given handle.
pub proof fn lemma_first_split_unique(s: Seq<Split>, h: SplitHandle, i: int, j: int)
    requires
        first_split(s, h, i),
        first_split(s, h, j),
    ensures
        i == j,
{
    if i < j {
        assert(s[i].handle != h);
    } else if j < i {
        assert(s[j].handle != h);
    }
}

/// Laying out arenas that differ only in docks' storage gives the same rects, and changes
/// nothing but rects.
pub proof fn lemma_layout_congruent(a: Seq<Split>, b: Seq<Split>, r: Rect, h: SplitHandle, depth: nat)
    requires
        same_shape(a, b),
        same_rects(a, b),
        arena_ok(a),
        has_split(a, h),
    ensures
        same_shape(a, layout(a, r, h, depth)),
        same_shape(layout(a, r, h, depth), layout(b, r, h, depth)),
        same_rects(layout(a, r, h, depth), layout(b, r, h, depth)),
    decreases depth,
{
    lemma_same_shape(a, b);
    let i = index_of(a, h);
    let j = index_of(b, h);
    let w = choose|w: int| 0 <= w < a.len() && (#[trigger] a[w]).handle == h;
    assert(exists|k: int| first_split(a, h, k)) by {
        lemma_first_exists(a, h, w);
    }
    assert(first_split(a, h, i));
    assert(first_split(b, h, j));
    assert(first_split(b, h, i));
    lemma_first_split_unique(b, h, i, j);
    let n = a[i];
    assert(same_node(a[i], b[i]));
    let rs = sub_rects(n.direction, r, n.ratio as int);
    let a1 = if depth > 0 && n.left is Some { layout(a, rs.0, n.left.unwrap(), (depth - 1) as nat) } else { a };
    let b1 = if depth > 0 && n.left is Some { layout(b, rs.0, n.left.unwrap(), (depth - 1) as nat) } else { b };
    if depth > 0 && n.left is Some {
        assert(has_split(a, n.left.unwrap()));
        lemma_layout_congruent(a, b, rs.0, n.left.unwrap(), (depth - 1) as nat);
    }
    lemma_same_shape(a, a1);
    assert(same_node(a[i], a1[i]));
    let a2 = if depth > 0 && n.right is Some { layout(a1, rs.1, n.right.unwrap(), (depth - 1) as nat) } else { a1 };
    let b2 = if depth > 0 && n.right is Some { layout(b1, rs.1, n.right.unwrap(), (depth - 1) as nat) } else { b1 };
    if depth > 0 && n.right is Some {
        assert(has_split(a1, n.right.unwrap()));
        lemma_layout_congruent(a1, b1, rs.1, n.right.unwrap(), (depth - 1) as nat);
    }
    lemma_same_shape(a1, a2);
    lemma_same_shape(a, a2);
    assert(same_node(a[i], a2[i]));
    assert(same_node(a2[i], b2[i]));
    let fa = a2.update(i, with_rects(a2[i], r));
    let fb = b2.update(i, with_rects(b2[i], r));
    assert(layout(a, r, h, depth) == fa);
    assert(layout(b, r, h, depth) == fb);
    assert(same_shape(a, fa)) by {
        assert forall|k: int| 0 <= k < a.len() implies same_node(#[trigger] a[k], fa[k]) by {
            assert(same_node(a[k], a2[k]));
        }
    }
    assert(same_shape(fa, fb)) by {
        assert forall|k: int| 0 <= k < fa.len() implies same_node(#[trigger] fa[k], fb[k]) by {
            assert(same_node(a2[k], b2[k]));
        }
    }
}

proof fn lemma_first_exists(s: Seq<Split>, h: SplitHandle, w: int)
    requires
        0 <= w < s.len(),
        s[w].handle == h,
    ensures
        exists|k: int| first_split(s, h, k),
    decreases w,
{
    if exists|j: int| 0 <= j < w && (#[trigger] s[j]).handle == h {
        let j = choose|j: int| 0 <= j < w && (#[trigger] s[j]).handle == h;
        lemma_first_exists(s, h, j);
    } else {
        assert(first_split(s, h, w));
    }
}

/// The sum of `f` over the elements of `s`.
pub open spec fn total<A>(s: Seq<A>, f: spec_fn(A) -> int) -> int
    decreases s.len(),
{
    if s.len() == 0 {
        0
    } else {
        total(s.drop_last(), f) + f(s.last())
    }
}

pub proof fn lemma_total_update<A>(s: Seq<A>, f: spec_fn(A) -> int, i: int, x: A)
    requires
        0 <= i < s.len(),
    ensures
        total(s.update(i, x), f) == total(s, f) - f(s[i]) + f(x),
    decreases s.len(),
{
    let t = s.update(i, x);
    if i < s.len() - 1 {
        assert(t.drop_last() == s.drop_last().update(i, x));
        lemma_total_update(s.drop_last(), f, i, x);
    } else {
        assert(t.drop_last() == s.drop_last());
    }
}

pub proof fn lemma_total_same<A>(a: Seq<A>, b: Seq<A>, f: spec_fn(A) -> int)
    requires
        a.len() == b.len(),
        forall|i: int| 0 <= i < a.len() ==> f(a[i]) == f(#[trigger] b[i]),
    ensures
        total(a, f) == total(b, f),
    decreases a.len(),
{
    if a.len() > 0 {
        assert(f(a[a.len() - 1]) == f(b[a.len() - 1]));
        lemma_total_same(a.drop_last(), b.drop_last(), f);
    }
}

pub proof fn lemma_total_nonneg<A>(s: Seq<A>, f: spec_fn(A) -> int)
    requires
        forall|i: int| 0 <= i < s.len() ==> f(#[trigger] s[i]) >= 0,
    ensures
        total(s, f) >= 0,
        total(s, f) == 0 <==> forall|i: int| 0 <= i < s.len() ==> f(#[trigger] s[i]) == 0,
    decreases s.len(),
{
    if s.len() > 0 {
        assert(f(s[s.len() - 1]) >= 0);
        lemma_total_nonneg(s.drop_last(), f);
        if total(s, f) == 0 {
            assert forall|i: int| 0 <= i < s.len() implies f(#[trigger] s[i]) == 0 by {
                if i < s.len() - 1 {
                    assert(s[i] == s.drop_last()[i]);
                }
            }
        }
        if forall|i: int| 0 <= i < s.len() ==> f(#[trigger] s[i]) == 0 {
            assert forall|i: int| 0 <= i < s.drop_last().len() implies f(#[trigger] s.drop_last()[i]) == 0 by {
                assert(s.drop_last()[i] == s[i]);
            }
            assert(f(s[s.len() - 1]) == 0);
        }
    }
}

/// How many docks of a container have handle `h`.
pub open spec fn count_in(docks: Seq<Dock>, h: DockHandle) -> int {
    total(docks, |d: Dock| if d.handle == h { 1int } else { 0int })
}

/// How many docks of a node have handle `h`.
pub open spec fn node_count(n: Split, h: DockHandle) -> int {
    count_in(n.left_docks.docks@, h) + count_in(n.right_docks.docks@, h)
}

/// How many docks of the arena have handle `h`.
pub open spec fn dock_count(s: Seq<Split>, h: DockHandle) -> int {
    total(s, |n: Split| node_count(n, h))
}

pub proof fn lemma_count_present(docks: Seq<Dock>, h: DockHandle)
    ensures
        count_in(docks, h) >= 0,
        count_in(docks, h) > 0 <==> has_dock(docks, h),
{
    let f = |d: Dock| if d.handle == h { 1int } else { 0int };
    lemma_total_nonneg(docks, f);
    if has_dock(docks, h) {
        let i = choose|i: int| 0 <= i < docks.len() && (#[trigger] docks[i]).handle == h;
        assert(f(docks[i]) == 1);
    }
    if count_in(docks, h) > 0 {
        let i = choose|i: int| 0 <= i < docks.len() && f(#[trigger] docks[i]) != 0;
        assert(docks[i].handle == h);
    }
}

pub proof fn lemma_arena_count_present(s: Seq<Split>, h: DockHandle)
    ensures
        dock_count(s, h) >= 0,
        dock_count(s, h) > 0 <==> dock_in_arena(s, h),
{
    let f = |n: Split| node_count(n, h);
    assert forall|i: int| 0 <= i < s.len() implies f(#[trigger] s[i]) >= 0 && (f(s[i]) > 0 <==> node_holds(s[i], h)) by {
        lemma_count_present(s[i].left_docks.docks@, h);
        lemma_count_present(s[i].right_docks.docks@, h);
    }
    lemma_total_nonneg(s, f);
    if dock_in_arena(s, h) {
        let i = choose|i: int| 0 <= i < s.len() && node_holds(#[trigger] s[i], h);
        assert(f(s[i]) > 0);
    }
    if dock_count(s, h) > 0 {
        let i = choose|i: int| 0 <= i < s.len() && f(#[trigger] s[i]) != 0;
        assert(node_holds(s[i], h));
    }
}

/// Taking out a dock with handle `h` leaves one dock with `h` fewer.
pub proof fn lemma_count_swap_removed(docks: Seq<Dock>, h: DockHandle, k: int)
    requires
        0 <= k < docks.len(),
        docks[k].handle == h,
    ensures
        count_in(swap_removed(docks, k), h) == count_in(docks, h) - 1,
{
    let f = |d: Dock| if d.handle == h { 1int } else { 0int };
    let t = docks.update(k, docks.last());
    lemma_total_update(docks, f, k, docks.last());
    assert(t.last() == docks.last());
}

pub proof fn lemma_node_removed_count(a: Split, b: Split, h: DockHandle)
    requires
        node_removed(a, b, h),
    ensures
        node_count(b, h) == node_count(a, h) - 1,
{
    if has_dock(a.left_docks.docks@, h) {
        let k = choose|k: int| last_dock(a.left_docks.docks@, h, k) && b.left_docks.docks@ == swap_removed(
            a.left_docks.docks@, k);
        lemma_count_swap_removed(a.left_docks.docks@, h, k);
    } else {
        let k = choose|k: int| last_dock(a.right_docks.docks@, h, k) && b.right_docks.docks@ == swap_removed(
            a.right_docks.docks@, k);
        lemma_count_swap_removed(a.right_docks.docks@, h, k);
    }
}

/// Arenas whose nodes hold the same docks, position by position, count the same docks.
pub proof fn lemma_count_same_docks(a: Seq<Split>, b: Seq<Split>, h: DockHandle)
    requires
        a.len() == b.len(),
        forall|i: int|
            0 <= i < a.len() ==> (#[trigger] a[i]).left_docks.docks@ == b[i].left_docks.docks@
                && a[i].right_docks.docks@ == b[i].right_docks.docks@,
    ensures
        dock_count(a, h) == dock_count(b, h),
{
    let f = |n: Split| node_count(n, h);
    assert forall|i: int| 0 <= i < a.len() implies f(a[i]) == f(#[trigger] b[i]) by {
        assert(a[i].left_docks.docks@ == b[i].left_docks.docks@);
    }
    lemma_total_same(a, b, f);
}

/// Removing a node without docks by moving the last node into its place keeps the count.
pub proof fn lemma_count_swap_remove_empty(d: Seq<Split>, i: int, h: DockHandle)
    requires
        0 <= i < d.len(),
        d[i].left_docks.docks@.len() == 0,
        d[i].right_docks.docks@.len() == 0,
    ensures
        dock_count(d.update(i, d.last()).drop_last(), h) == dock_count(d, h),
{
    let f = |n: Split| node_count(n, h);
    let t = d.update(i, d.last());
    assert(count_in(d[i].left_docks.docks@, h) == 0);
    assert(count_in(d[i].right_docks.docks@, h) == 0);
    lemma_total_update(d, f, i, d.last());
    assert(t.last() == d.last());
}

/// How many docks of a container equal `d`, handle and name.
pub open spec fn count_dock(docks: Seq<Dock>, d: Dock) -> int {
    total(docks, same_dock(d))
}

/// One for a dock equal to `d`, zero for any other.
pub open spec fn same_dock(d: Dock) -> spec_fn(Dock) -> int {
    |x: Dock| if x == d { 1int } else { 0int }
}

/// How many docks of the arena equal `d`, handle and name.
pub open spec fn dock_mult(s: Seq<Split>, d: Dock) -> int {
    total(s, |n: Split| count_dock(n.left_docks.docks@, d) + count_dock(n.right_docks.docks@, d))
}

/// Taking out a dock with handle `h` keeps every dock with another handle.
pub proof fn lemma_mult_swap_removed(docks: Seq<Dock>, h: DockHandle, k: int, d: Dock)
    requires
        0 <= k < docks.len(),
        docks[k].handle == h,
        d.handle != h,
    ensures
        count_dock(swap_removed(docks, k), d) == count_dock(docks, d),
{
    let f = same_dock(d);
    let t = docks.update(k, docks.last());
    assert(docks[k] != d);
    assert(f(docks[k]) == 0);
    lemma_total_update(docks, f, k, docks.last());
    assert(t.last() == docks.last());
    assert(total(t, f) == total(t.drop_last(), f) + f(t.last()));
}

pub proof fn lemma_mult_same_docks(a: Seq<Split>, b: Seq<Split>, d: Dock)
    requires
        a.len() == b.len(),
        forall|i: int|
            0 <= i < a.len() ==> (#[trigger] a[i]).left_docks.docks@ == b[i].left_docks.docks@
                && a[i].right_docks.docks@ == b[i].right_docks.docks@,
    ensures
        dock_mult(a, d) == dock_mult(b, d),
{
    let f = |n: Split| count_dock(n.left_docks.docks@, d) + count_dock(n.right_docks.docks@, d);
    assert forall|i: int| 0 <= i < a.len() implies f(a[i]) == f(#[trigger] b[i]) by {
        assert(a[i].left_docks.docks@ == b[i].left_docks.docks@);
    }
    lemma_total_same(a, b, f);
}

pub proof fn lemma_mult_swap_remove_empty(s: Seq<Split>, i: int, d: Dock)
    requires
        0 <= i < s.len(),
        s[i].left_docks.docks@.len() == 0,
        s[i].right_docks.docks@.len() == 0,
    ensures
        dock_mult(s.update(i, s.last()).drop_last(), d) == dock_mult(s, d),
{
    let f = |n: Split| count_dock(n.left_docks.docks@, d) + count_dock(n.right_docks.docks@, d);
    let t = s.update(i, s.last());
    assert(count_dock(s[i].left_docks.docks@, d) == 0);
    assert(count_dock(s[i].right_docks.docks@, d) == 0);
    lemma_total_update(s, f, i, s.last());
    assert(t.last() == s.last());
}

/// Node `f` comes from node `a` by merging: same handle and docks, a child reference is
/// at most cleared, and the ratio is kept while both references are.
pub open spec fn kept(a: Split, f: Split) -> bool {
    &&& f.handle == a.handle
    &&& f.left_docks.docks@ == a.left_docks.docks@
    &&& f.right_docks.docks@ == a.right_docks.docks@
    &&& (f.left is None || f.left == a.left)
    &&& (f.right is None || f.right == a.right)
    &&& (f.left == a.left && f.right == a.right ==> f.ratio == a.ratio)
}

/// Every node of `b` comes by merging from some node of `a`.
pub open spec fn all_kept(a: Seq<Split>, b: Seq<Split>) -> bool {
    forall|j: int| 0 <= j < b.len() ==> kept_from(a, #[trigger] b[j])
}

/// Node `f` comes by merging from some node of `a`.
pub open spec fn kept_from(a: Seq<Split>, f: Split) -> bool {
    exists|k: int| 0 <= k < a.len() && #[trigger] kept(a[k], f)
}

/// Node `f` comes from node `a` by a delete: same handle, a child reference is at most
/// cleared, and while both references are kept and both sides hold something, so is the
/// ratio.
pub open spec fn merged_from(a: Split, f: Split) -> bool {
    &&& f.handle == a.handle
    &&& (f.left is None || f.left == a.left)
    &&& (f.right is None || f.right == a.right)
    &&& (f.left == a.left && f.right == a.right && !f.left_empty() && !f.right_empty() ==> f.ratio == a.ratio)
}

/// Node `f` comes by a delete from some node of `a`.
pub open spec fn merged_from_some(a: Seq<Split>, f: Split) -> bool {
    exists|k: int| 0 <= k < a.len() && #[trigger] merged_from(a[k], f)
}

pub proof fn lemma_all_kept_refl(a: Seq<Split>)
    ensures
        all_kept(a, a),
{
    assert forall|j: int| 0 <= j < a.len() implies kept_from(a, #[trigger] a[j]) by {
        assert(kept(a[j], a[j]));
    }
}

pub proof fn lemma_kept_trans(a: Split, b: Split, c: Split)
    requires
        kept(a, b),
        kept(b, c),
    ensures
        kept(a, c),
{
}

pub proof fn lemma_all_kept_trans(a: Seq<Split>, b: Seq<Split>, c: Seq<Split>)
    requires
        all_kept(a, b),
        all_kept(b, c),
    ensures
        all_kept(a, c),
{
    assert forall|j: int| 0 <= j < c.len() implies kept_from(a, #[trigger] c[j]) by {
        assert(kept_from(b, c[j]));
        let m = choose|m: int| 0 <= m < b.len() && #[trigger] kept(b[m], c[j]);
        assert(kept_from(a, b[m]));
        let k = choose|k: int| 0 <= k < a.len() && #[trigger] kept(a[k], b[m]);
        lemma_kept_trans(a[k], b[m], c[j]);
    }
}

/// `i` is the first node that holds dock `d`.
pub open spec fn first_holder(s: Seq<Split>, d: DockHandle, i: int) -> bool {
    0 <= i < s.len() && node_holds(s[i], d) && forall|j: int| 0 <= j < i ==> !node_holds(#[trigger] s[j], d)
}

/// The rect of the first container that holds dock `d`.
pub open spec fn dock_rect(s: Seq<Split>, d: DockHandle) -> Option<Rect> {
    if dock_in_arena(s, d) {
        let i = choose|i: int| first_holder(s, d, i);
        Some(
            if has_dock(s[i].left_docks.docks@, d) {
                s[i].left_docks.rect
            } else {
                s[i].right_docks.rect
            },
        )
    } else {
        None
    }
}

proof fn lemma_first_holder(s: Seq<Split>, d: DockHandle, w: int)
    requires
        0 <= w < s.len(),
        node_holds(s[w], d),
    ensures
        exists|k: int| first_holder(s, d, k),
    decreases w,
{
    if exists|j: int| 0 <= j < w && node_holds(#[trigger] s[j], d) {
        let j = choose|j: int| 0 <= j < w && node_holds(#[trigger] s[j], d);
        lemma_first_holder(s, d, j);
    } else {
        assert(first_holder(s, d, w));
    }
}

proof fn lemma_first_holder_unique(s: Seq<Split>, d: DockHandle, i: int, j: int)
    requires
        first_holder(s, d, i),
        first_holder(s, d, j),
    ensures
        i == j,
{
    if i < j {
        assert(node_holds(s[i], d));
    } else if j < i {
        assert(node_holds(s[j], d));
    }
}

/// Arenas that agree on their nodes and on their computed rects give every dock the same rect.
pub proof fn lemma_dock_rect_same(a: Seq<Split>, b: Seq<Split>, d: DockHandle)
    requires
        same_shape(a, b),
        same_rects(a, b),
    ensures
        dock_rect(a, d) == dock_rect(b, d),
{
    assert forall|i: int| 0 <= i < a.len() implies node_holds(#[trigger] a[i], d) == node_holds(b[i], d) by {
        assert(same_node(a[i], b[i]));
    }
    if dock_in_arena(a, d) {
        let w = choose|w: int| 0 <= w < a.len() && node_holds(#[trigger] a[w], d);
        lemma_first_holder(a, d, w);
        lemma_first_holder(b, d, w);
        let i = choose|i: int| first_holder(a, d, i);
        let j = choose|j: int| first_holder(b, d, j);
        assert(first_holder(b, d, i)) by {
            assert(same_node(a[i], b[i]));
            assert forall|k: int| 0 <= k < i implies !node_holds(#[trigger] b[k], d) by {
                assert(same_node(a[k], b[k]));
                assert(!node_holds(a[k], d));
            }
        }
        lemma_first_holder_unique(b, d, i, j);
        assert(same_node(a[i], b[i]));
        assert(dock_in_arena(b, d));
    } else {
        if dock_in_arena(b, d) {
            let w = choose|w: int| 0 <= w < b.len() && node_holds(#[trigger] b[w], d);
            assert(node_holds(a[w], d));
        }
    }
}

/// Saving a well-formed workspace and loading the document back (which gives the same root
/// rect and the same nodes in the same order) keeps every dock with its name, and after the
/// layout pass on each side every dock has the same rect.
pub proof fn lemma_round_trip(saved: Workspace, loaded: Workspace, d: DockHandle)
    requires
        saved.wf(),
        loaded.rect == saved.rect,
        same_shape(saved.splits@, loaded.splits@),
    ensures
        all_docks(loaded.splits@) == all_docks(saved.splits@),
        dock_rect(
            layout(cleared(loaded.splits@), loaded.rect, SplitHandle(0), loaded.splits@.len() as nat),
            d,
        ) == dock_rect(
            layout(cleared(saved.splits@), saved.rect, SplitHandle(0), saved.splits@.len() as nat),
            d,
        ),
{
    lemma_same_shape_docks(saved.splits@, loaded.splits@);
    lemma_layout_same(saved.splits@, loaded.splits@, saved.rect);
    lemma_dock_rect_same(
        layout(cleared(saved.splits@), saved.rect, SplitHandle(0), saved.splits@.len() as nat),
        layout(cleared(loaded.splits@), loaded.rect, SplitHandle(0), loaded.splits@.len() as nat),
        d,
    );
}

/// Arenas that differ only in computed rects list the same docks, with the same handles and
/// names, in the same order; so does a workspace loaded from what `Workspace::save` wrote.
pub proof fn lemma_same_shape_docks(a: Seq<Split>, b: Seq<Split>)
    requires
        same_shape(a, b),
    ensures
        all_docks(a) == all_docks(b),
    decreases a.len(),
{
    if a.len() > 0 {
        let n = a.len() - 1;
        assert(same_node(a[n], b[n]));
        assert(same_shape(a.drop_last(), b.drop_last())) by {
            assert forall|i: int| 0 <= i < a.drop_last().len() implies same_node(
                #[trigger] a.drop_last()[i], b.drop_last()[i]) by {
                assert(same_node(a[i], b[i]));
            }
        }
        lemma_same_shape_docks(a.drop_last(), b.drop_last());
    }
}

impl Workspace {
    /// The last split handle handed out.
    pub open spec fn handle_count(&self) -> u64 {
        self.handle_counter.0
    }

    /// The arena is not empty, holds the root, every link resolves, every ratio is a
    /// fraction and no handle is beyond the counter.
    pub open spec fn wf(&self) -> bool {
        &&& self.splits@.len() >= 1
        &&& has_split(self.splits@, SplitHandle(0))
        &&& arena_ok(self.splits@)
        &&& forall|i: int|
            0 <= i < self.splits@.len() ==> (#[trigger] self.splits@[i]).handle.0 <= self.handle_count()
    }

    /// A workspace with one empty root node; fails on a rect with a negative origin or a
    /// size that is not positive.
    pub fn new(rect: Rect) -> (r: Result<Workspace, Error>)
        ensures
            !valid_root(rect) ==> r == Err::<Workspace, Error>(Error::InvalidRect),
            valid_root(rect) ==> (r matches Ok(w) && {
                &&& w.wf()
                &&& w.rect == rect
                &&& w.window_border == 4
                &&& w.handle_count() == 0
                &&& w.splits@.len() == 1
                &&& w.splits@[0].handle == SplitHandle(0)
                &&& w.splits@[0].direction == Direction::Full
                &&& w.splits@[0].ratio == 0
                &&& w.splits@[0].left_empty()
                &&& w.splits@[0].right_empty()
            }),
    {
        if rect.x < 0 || rect.y < 0 || rect.width <= 0 || rect.height <= 0 {
            return Err(Error::InvalidRect);
        }
        let w = Workspace {
            splits: vec![Split::new(Direction::Full, 0, SplitHandle(0))],
            rect,
            window_border: 4,
            handle_counter: SplitHandle(0),
        };
        assert(w.splits@[0].handle == SplitHandle(0));
        Ok(w)
    }

    fn next_handle(&mut self) -> (r: SplitHandle)
        requires
            old(self).handle_count() < u64::MAX,
        ensures
            r.0 == old(self).handle_count() + 1,
            final(self).handle_count() == r.0,
            final(self).splits == old(self).splits,
            final(self).rect == old(self).rect,
            final(self).window_border == old(self).window_border,
            final(self).window_border == old(self).window_border,
    {
        self.handle_counter.0 = self.handle_counter.0 + 1;
        self.handle_counter
    }

    /// Divides `rect` by height: the top side gets `ratio / RATIO_ONE` of it.
    pub fn calc_horizontal_sizing(rect: Rect, ratio: u32) -> (r: (Rect, Rect))
        requires
            divisible(rect),
            ratio <= RATIO_ONE,
        ensures
            r == horizontal_parts(rect, ratio as int),
            divisible(r.0),
            divisible(r.1),
    {
        let h = ratio_part(rect.height, ratio);
        let top = Rect::new(rect.x, rect.y, rect.width, h);
        let bottom = Rect::new(rect.x, rect.y + h, rect.width, rect.height - h);
        (top, bottom)
    }

    /// Divides `rect` by width: the left side gets `ratio / RATIO_ONE` of it.
    pub fn calc_vertical_sizing(rect: Rect, ratio: u32) -> (r: (Rect, Rect))
        requires
            divisible(rect),
            ratio <= RATIO_ONE,
        ensures
            r == vertical_parts(rect, ratio as int),
            divisible(r.0),
            divisible(r.1),
    {
        let w = ratio_part(rect.width, ratio);
        let left = Rect::new(rect.x, rect.y, w, rect.height);
        let right = Rect::new(rect.x + w, rect.y, rect.width - w, rect.height);
        (left, right)
    }

    fn calc_rects(direction: Direction, rect: Rect, ratio: u32) -> (r: (Rect, Rect))
        requires
            divisible(rect),
            ratio <= RATIO_ONE,
        ensures
            r == sub_rects(direction, rect, ratio as int),
            divisible(r.0),
            divisible(r.1),
    {
        match direction {
            Direction::Vertical => Self::calc_vertical_sizing(rect, ratio),
            Direction::Horizontal => Self::calc_horizontal_sizing(rect, ratio),
            Direction::Full => (rect, rect),
        }
    }

    fn find_split_by_handle(splits: &Vec<Split>, handle: SplitHandle) -> (r: usize)
        requires
            has_split(splits@, handle),
        ensures
            first_split(splits@, handle, r as int),
    {
        let mut i: usize = 0;
        while i < splits.len()
            invariant
                i <= splits.len(),
                has_split(splits@, handle),
                forall|j: int| 0 <= j < i ==> (#[trigger] splits@[j]).handle != handle,
            decreases splits.len() - i,
        {
            if splits[i].handle == handle {
                return i;
            }
            i += 1;
        }
        proof {
            let k = choose|k: int| 0 <= k < splits@.len() && (#[trigger] splits@[k]).handle == handle;
            assert(splits@[k].handle != handle);
        }
        0
    }

    /// Opens `handle` beside each container of `node` that holds `find`, appending the
    /// nodes that this creates, all with handle `sh`, to `created`.
    fn split_node(
        node: &mut Split,
        sh: SplitHandle,
        find: DockHandle,
        handle: DockHandle,
        direction: Direction,
        created: &mut Vec<Split>,
    ) -> (w: Ghost<(Split, Option<Split>, Option<Split>)>)
        requires
            old(node).ratio <= RATIO_ONE,
        ensures
            step_post(*old(node), *final(node), w@, sh, find, handle, direction),
            final(created)@ == old(created)@ + made_by(w@),
            final(node).handle == old(node).handle,
            final(node).ratio <= RATIO_ONE,
            !node_holds(*old(node), find) ==> *final(node) == *old(node) && final(created)@ == old(
                created,
            )@,
            final(created)@.len() >= old(created)@.len(),
            final(created)@.subrange(0, old(created)@.len() as int) == old(created)@,
            forall|k: int|
                old(created)@.len() <= k < final(created)@.len() ==> new_node(
                    #[trigger] final(created)@[k],
                    sh,
                    direction,
                    handle,
                ),
            final(node).left matches Some(h) ==> (old(node).left == Some(h) || (h == sh
                && final(created)@.len() > old(created)@.len())),
            final(node).right matches Some(h) ==> (old(node).right == Some(h) || (h == sh
                && final(created)@.len() > old(created)@.len())),
            node_holds(*old(node), find) ==> (node_holds(*final(node), handle) || exists|k: int|
                old(created)@.len() <= k < final(created)@.len() && node_holds(
                    #[trigger] final(created)@[k],
                    handle,
                )),
    {
        let ghost n0 = *node;
        let ghost c0 = created@;
        let ghost mut r1: Option<Split> = None;
        let ghost mut r2: Option<Split> = None;
        if node.left_docks.find_handle(find) {
            let res = node.split_left(sh, handle, direction);
            proof {
                r1 = res;
            }
            if let Some(n) = res {
                created.push(n);
                proof {
                    let k = created@.len() - 1;
                    assert(created@[k].left_docks.docks@[0].handle == handle);
                    assert(node_holds(created@[k], handle));
                }
            } else {
                proof {
                    if n0.left_empty() {
                        assert(node.left_docks.docks@[0].handle == handle);
                    } else {
                        assert(node.right_docks.docks@[0].handle == handle);
                    }
                    assert(node_holds(*node, handle));
                }
            }
        }
        let ghost n1 = *node;
        let ghost c1 = created@;
        assert(c1.subrange(0, c0.len() as int) == c0);
        let ghost m = *node;
        if node.right_docks.find_handle(find) {
            let res = node.split_right(sh, handle, direction);
            proof {
                r2 = res;
            }
            if let Some(n) = res {
                created.push(n);
                proof {
                    let k = created@.len() - 1;
                    assert(created@[k].left_docks.docks@ == n1.right_docks.docks@);
                    assert(created@[k].right_docks.docks@[0].handle == handle);
                    assert(node_holds(created@[k], handle));
                    assert(created@[k] == n);
                    if node_holds(n1, handle) {
                        if has_dock(n1.left_docks.docks@, handle) {
                            assert(node.left_docks.docks@ == n1.left_docks.docks@);
                            assert(node_holds(*node, handle));
                        }
                    }
                    assert forall|j: int| 0 <= j < c1.len() implies created@[j] == c1[j] by {
                        assert(created@[j] == created@.subrange(0, c1.len() as int)[j]);
                    }
                    if exists|k: int| c0.len() <= k < c1.len() && node_holds(#[trigger] c1[k], handle) {
                        let k = choose|k: int| c0.len() <= k < c1.len() && node_holds(#[trigger] c1[k], handle);
                        assert(created@[k] == c1[k]);
                    }
                }
            } else {
                proof {
                    if n1.left_empty() {
                        assert(node.left_docks.docks@[0].handle == handle);
                    } else {
                        assert(node.right_docks.docks@[0].handle == handle);
                    }
                    assert(node_holds(*node, handle));
                }
            }
        }
        proof {
            assert(created@.subrange(0, c0.len() as int) =~= c0) by {
                assert forall|j: int| 0 <= j < c0.len() implies created@[j] == c0[j] by {
                    assert(created@[j] == created@.subrange(0, c1.len() as int)[j]);
                    assert(c1[j] == c1.subrange(0, c0.len() as int)[j]);
                }
            }
            assert forall|k: int| c0.len() <= k < created@.len() implies new_node(
                #[trigger] created@[k], sh, direction, handle) by {
                if k < c1.len() {
                    assert(created@[k] == created@.subrange(0, c1.len() as int)[k]);
                }
            }
        }
        proof {
            assert(created@ =~= c0 + made_by((m, r1, r2)));
        }
        Ghost((m, r1, r2))
    }

    /// Lays out the subtree of `handle` in `rect`, up to `depth` levels below it.
    fn recursive_update(splits: &mut Vec<Split>, rect: Rect, handle: SplitHandle, depth: usize)
        requires
            arena_ok(old(splits)@),
            has_split(old(splits)@, handle),
            divisible(rect),
        ensures
            same_shape(old(splits)@, final(splits)@),
            rects_consistent(old(splits)@, final(splits)@),
            exists|i: int| first_split(final(splits)@, handle, i) && laid_out(final(splits)@[i], rect),
            final(splits)@ == layout(old(splits)@, rect, handle, depth as nat),
        decreases depth,
    {
        let ghost s0 = splits@;
        let i = Self::find_split_by_handle(splits, handle);
        proof {
            lemma_first_exists(s0, handle, i as int);
            lemma_first_split_unique(s0, handle, i as int, index_of(s0, handle));
        }
        let rects = Self::calc_rects(splits[i].direction, rect, splits[i].ratio);
        if depth > 0 {
            if let Some(h) = splits[i].left {
                Self::recursive_update(splits, rects.0, h, depth - 1);
                proof { lemma_same_shape(s0, splits@); }
            }
            let ghost s1 = splits@;
            assert(same_node(s0[i as int], s1[i as int]));
            if let Some(h) = splits[i].right {
                Self::recursive_update(splits, rects.1, h, depth - 1);
                proof { lemma_same_shape(s1, splits@); }
            }
        }
        let ghost s2 = splits@;
        assert(same_node(s0[i as int], s2[i as int]));
        splits[i].rect = rect;
        splits[i].left_docks.rect = rects.0;
        splits[i].right_docks.rect = rects.1;
        proof {
            assert(splits@ =~= s2.update(i as int, with_rects(s2[i as int], rect)));
            assert(same_node(s2[i as int], splits@[i as int]));
            assert(laid_out(splits@[i as int], rect));
            assert(same_shape(s2, splits@));
            lemma_same_shape(s0, s2);
            lemma_same_shape(s2, splits@);
            assert(first_split(splits@, handle, i as int));
        }
    }

    /// Computes the rects of every node and container from the root rect down; a node that
    /// the root does not reach is left with cleared rects.
    pub fn update(&mut self)
        requires
            old(self).wf(),
            divisible(old(self).rect),
        ensures
            final(self).wf(),
            final(self).rect == old(self).rect,
            final(self).window_border == old(self).window_border,
            final(self).handle_counter == old(self).handle_counter,
            same_shape(old(self).splits@, final(self).splits@),
            final(self).splits@ == layout(
                cleared(old(self).splits@),
                old(self).rect,
                SplitHandle(0),
                old(self).splits@.len() as nat,
            ),
            rects_consistent(cleared(old(self).splits@), final(self).splits@),
            exists|i: int|
                first_split(final(self).splits@, SplitHandle(0), i) && laid_out(
                    final(self).splits@[i],
                    old(self).rect,
                ),
    {
        let depth = self.splits.len();
        let ghost s0 = self.splits@;
        let mut j: usize = 0;
        while j < self.splits.len()
            invariant
                j <= self.splits@.len(),
                self.splits@.len() == s0.len(),
                s0 == old(self).splits@,
                depth == s0.len(),
                self.rect == old(self).rect,
                self.window_border == old(self).window_border,
                self.handle_counter == old(self).handle_counter,
                old(self).wf(),
                divisible(old(self).rect),
                forall|k: int| 0 <= k < j ==> #[trigger] self.splits@[k] == cleared_node(s0[k]),
                forall|k: int| j <= k < s0.len() ==> #[trigger] self.splits@[k] == s0[k],
            decreases self.splits@.len() - j,
        {
            self.splits[j].rect = Rect::new(0, 0, 0, 0);
            self.splits[j].left_docks.rect = Rect::new(0, 0, 0, 0);
            self.splits[j].right_docks.rect = Rect::new(0, 0, 0, 0);
            j += 1;
        }
        let ghost c0 = self.splits@;
        proof {
            assert(c0 =~= cleared(s0));
            assert(same_shape(s0, c0)) by {
                assert forall|k: int| 0 <= k < s0.len() implies same_node(#[trigger] s0[k], c0[k]) by {
                    assert(c0[k] == cleared_node(s0[k]));
                }
            }
            lemma_same_shape(s0, c0);
        }
        Self::recursive_update(&mut self.splits, self.rect, SplitHandle(0), depth);
        proof {
            lemma_same_shape(c0, self.splits@);
            assert(same_shape(s0, self.splits@)) by {
                assert forall|k: int| 0 <= k < s0.len() implies same_node(#[trigger] s0[k], self.splits@[k]) by {
                    assert(same_node(s0[k], c0[k]));
                    assert(same_node(c0[k], self.splits@[k]));
                }
            }
            lemma_same_shape(s0, self.splits@);
            assert forall|i: int| 0 <= i < self.splits@.len() implies (#[trigger] self.splits@[i]).handle.0
                <= self.handle_count() by {
                assert(same_node(s0[i], self.splits@[i]));
            }
        }
    }

    /// Opens `dock_handle` in a workspace that has only its root node: into an empty side
    /// of the root, or else beside the root's left side in a new node.
    pub fn split(&mut self, dock_handle: DockHandle, direction: Direction)
        requires
            old(self).wf(),
            old(self).handle_count() < u64::MAX,
        ensures
            final(self).wf(),
            final(self).rect == old(self).rect,
            final(self).window_border == old(self).window_border,
            old(self).splits@.len() != 1 ==> final(self).splits@ == old(self).splits@,
            old(self).splits@.len() == 1 ==> dock_in_arena(final(self).splits@, dock_handle),
            old(self).splits@.len() == 1 && (old(self).splits@[0].left_empty()
                || old(self).splits@[0].right_empty()) ==> final(self).splits@.len() == 1
                && Split::placed_post(
                old(self).splits@[0],
                final(self).splits@[0],
                direction,
                dock_handle,
                true,
            ),
            old(self).splits@.len() == 1 && !(old(self).splits@[0].left_empty()
                || old(self).splits@[0].right_empty()) ==> {
                let a = old(self).splits@[0];
                let b = final(self).splits@[0];
                let n = final(self).splits@[1];
                &&& final(self).splits@.len() == 2
                &&& n.handle == final(self).handle_counter
                &&& n.handle != SplitHandle(0)
                &&& n.handle != a.handle
                &&& n.left is None
                &&& n.right is None
                &&& n.ratio == crate::split::RATIO_HALF
                &&& b.handle == a.handle
                &&& b.right == a.right
                &&& b.ratio == crate::split::RATIO_HALF
                &&& n.direction == direction
                &&& holds_fresh_dock(n.left_docks, dock_handle)
                &&& n.right_docks.docks@ == a.left_docks.docks@
                &&& b.left == Some(n.handle)
                &&& b.left_docks.docks@.len() == 0
                &&& b.right_docks.docks@ == a.right_docks.docks@
            },
            final(self).handle_count() == old(self).handle_count() + (if old(self).splits@.len() == 1 {
                1int
            } else {
                0int
            }),
    {
        if self.splits.len() == 1 {
            let handle = self.next_handle();
            let ghost s0 = self.splits@;
            let created = self.splits[0].split_left(handle, dock_handle, direction);
            let ghost s1 = self.splits@;
            proof {
                assert(s0[0].handle == SplitHandle(0));
            }
            match created {
                Some(n) => {
                    self.splits.push(n);
                    proof {
                        let s2 = self.splits@;
                        assert(s2[1].handle == handle);
                        assert(has_split(s2, handle));
                        assert(has_split(s2, SplitHandle(0))) by { assert(s2[0].handle == SplitHandle(0)); }
                        assert(has_dock(s2[1].left_docks.docks@, dock_handle)) by {
                            assert(s2[1].left_docks.docks@[0].handle == dock_handle);
                        }
                        assert(node_holds(s2[1], dock_handle));
                        if let Some(r) = s2[0].right {
                            assert(has_split(s0, r));
                            assert(r == SplitHandle(0));
                        }
                    }
                },
                None => {
                    proof {
                        let s2 = self.splits@;
                        assert(has_split(s2, SplitHandle(0))) by { assert(s2[0].handle == SplitHandle(0)); }
                        if s0[0].left_empty() {
                            assert(s2[0].left_docks.docks@[0].handle == dock_handle);
                        } else {
                            assert(s2[0].right_docks.docks@[0].handle == dock_handle);
                        }
                        assert(node_holds(s2[0], dock_handle));
                        if let Some(r) = s2[0].right {
                            assert(has_split(s0, r));
                        }
                        if let Some(l) = s2[0].left {
                            assert(has_split(s0, l));
                        }
                    }
                },
            }
        }
    }

    /// Opens `handle` beside every container that holds `find_handle`; the nodes this
    /// creates share one fresh handle and join the arena after the scan.
    pub fn split_by_dock_handle(&mut self, direction: Direction, find_handle: DockHandle, handle: DockHandle)
        requires
            old(self).wf(),
            old(self).handle_count() < u64::MAX,
        ensures
            dock_count(old(self).splits@, find_handle) <= 1 && handle != find_handle ==> final(self).splits@.len()
                <= old(self).splits@.len() + 1,
            exists|ws: Seq<(Split, Option<Split>, Option<Split>)>|
                #[trigger] arena_split_post(
                    old(self).splits@,
                    final(self).splits@,
                    ws,
                    final(self).handle_counter,
                    find_handle,
                    handle,
                    direction,
                ),
            final(self).wf(),
            final(self).rect == old(self).rect,
            final(self).window_border == old(self).window_border,
            final(self).handle_count() == old(self).handle_count() + 1,
            final(self).splits@.len() >= old(self).splits@.len(),
            forall|i: int|
                0 <= i < old(self).splits@.len() ==> (#[trigger] final(self).splits@[i]).handle
                    == old(self).splits@[i].handle,
            forall|i: int|
                0 <= i < old(self).splits@.len() && !node_holds(old(self).splits@[i], find_handle)
                    ==> #[trigger] final(self).splits@[i] == old(self).splits@[i],
            forall|i: int|
                old(self).splits@.len() <= i < final(self).splits@.len() ==> new_node(
                    #[trigger] final(self).splits@[i],
                    final(self).handle_counter,
                    direction,
                    handle,
                ),
            !dock_in_arena(old(self).splits@, find_handle) ==> final(self).splits@ == old(
                self,
            ).splits@,
            dock_in_arena(old(self).splits@, find_handle) ==> dock_in_arena(
                final(self).splits@,
                handle,
            ),
    {
        let sh = self.next_handle();
        let ghost s0 = self.splits@;
        let mut created: Vec<Split> = Vec::new();
        let ghost mut found = false;
        let ghost mut ws: Seq<(Split, Option<Split>, Option<Split>)> = Seq::empty();
        let mut i: usize = 0;
        while i < self.splits.len()
            invariant
                ws.len() == i,
                created@ == made_all(ws),
                forall|j: int|
                    0 <= j < i ==> step_post(s0[j], #[trigger] self.splits@[j], ws[j], sh, find_handle, handle, direction),
                self.splits@.len() == s0.len(),
                i <= s0.len(),
                self.handle_counter == sh,
                sh.0 == old(self).handle_count() + 1,
                self.rect == old(self).rect,
                self.window_border == old(self).window_border,
                arena_ok(s0),
                has_split(s0, SplitHandle(0)),
                forall|j: int| 0 <= j < s0.len() ==> (#[trigger] s0[j]).handle.0 < sh.0,
                forall|j: int| i <= j < s0.len() ==> #[trigger] self.splits@[j] == s0[j],
                forall|j: int| 0 <= j < s0.len() ==> (#[trigger] self.splits@[j]).handle == s0[j].handle,
                forall|j: int|
                    0 <= j < i && !node_holds(s0[j], find_handle) ==> #[trigger] self.splits@[j]
                        == s0[j],
                forall|j: int| 0 <= j < created@.len() ==> new_node(#[trigger] created@[j], sh, direction, handle),
                forall|j: int|
                    0 <= j < s0.len() ==> {
                        &&& (#[trigger] self.splits@[j]).ratio <= RATIO_ONE
                        &&& (self.splits@[j].left matches Some(h) ==> (has_split(s0, h) || (h == sh
                            && created@.len() > 0)))
                        &&& (self.splits@[j].right matches Some(h) ==> (has_split(s0, h) || (h == sh
                            && created@.len() > 0)))
                    },
                found == (exists|j: int| 0 <= j < i && node_holds(#[trigger] s0[j], find_handle)),
                !found ==> created@.len() == 0,
                found ==> (exists|j: int| 0 <= j < i && node_holds(#[trigger] self.splits@[j], handle))
                    || (exists|k: int| 0 <= k < created@.len() && node_holds(#[trigger] created@[k], handle)),
            decreases s0.len() - i,
        {
            let ghost before = self.splits@;
            let ghost c0 = created@;
            let ghost f0 = found;
            let w = Self::split_node(&mut self.splits[i], sh, find_handle, handle, direction, &mut created);
            proof {
                let ws0 = ws;
                ws = ws.push(w@);
                assert(ws.drop_last() == ws0);
                assert(created@ =~= made_all(ws));
                assert forall|j: int| 0 <= j < i + 1 implies step_post(s0[j], #[trigger] self.splits@[j], ws[j], sh, find_handle, handle, direction) by {
                    if j < i {
                        assert(self.splits@[j] == before[j]);
                    }
                }
                let cur = self.splits@;
                assert forall|j: int| 0 <= j < c0.len() implies created@[j] == c0[j] by {
                    assert(created@[j] == created@.subrange(0, c0.len() as int)[j]);
                }
                assert forall|j: int| 0 <= j < created@.len() implies new_node(#[trigger] created@[j], sh, direction, handle) by {
                    if j < c0.len() {
                        assert(created@[j] == c0[j]);
                    }
                }
                if node_holds(s0[i as int], find_handle) {
                    found = true;
                    if node_holds(cur[i as int], handle) {
                    } else {
                        let k = choose|k: int| c0.len() <= k < created@.len() && node_holds(#[trigger] created@[k], handle);
                        assert(node_holds(created@[k], handle));
                    }
                } else {
                    assert(created@ == c0);
                }
                if f0 {
                    if exists|j: int| 0 <= j < i && node_holds(#[trigger] before[j], handle) {
                        let j = choose|j: int| 0 <= j < i && node_holds(#[trigger] before[j], handle);
                        assert(cur[j] == before[j]);
                    } else {
                        let k = choose|k: int| 0 <= k < c0.len() && node_holds(#[trigger] c0[k], handle);
                        assert(created@[k] == c0[k]);
                    }
                }
                assert(found == (exists|j: int| 0 <= j < i + 1 && node_holds(#[trigger] s0[j], find_handle)));
            }
            i += 1;
        }
        let ghost mid = self.splits@;
        let ghost made = created@;
        self.splits.append(&mut created);
        proof {
            let fin = self.splits@;
            assert(fin == mid + made);
            assert forall|h: SplitHandle| has_split(s0, h) implies has_split(fin, h) by {
                let j = choose|j: int| 0 <= j < s0.len() && (#[trigger] s0[j]).handle == h;
                assert(fin[j] == mid[j]);
            }
            if made.len() > 0 {
                assert(fin[mid.len() as int] == made[0]);
                assert(has_split(fin, sh));
            }
            assert(has_split(fin, SplitHandle(0)));
            assert forall|j: int| 0 <= j < fin.len() implies {
                &&& (#[trigger] fin[j]).ratio <= RATIO_ONE
                &&& (fin[j].left matches Some(h) ==> has_split(fin, h))
                &&& (fin[j].right matches Some(h) ==> has_split(fin, h))
            } by {
                if j < mid.len() {
                    assert(fin[j] == mid[j]);
                } else {
                    assert(fin[j] == made[j - mid.len()]);
                }
            }
            assert forall|j: int| 0 <= j < fin.len() implies (#[trigger] fin[j]).handle.0 <= self.handle_count() by {
                if j < mid.len() {
                    assert(fin[j] == mid[j]);
                } else {
                    assert(fin[j] == made[j - mid.len()]);
                }
            }
            assert forall|j: int| mid.len() <= j < fin.len() implies new_node(#[trigger] fin[j], sh, direction, handle) by {
                assert(fin[j] == made[j - mid.len()]);
            }
            if !dock_in_arena(s0, find_handle) {
                assert(!found);
                assert(fin =~= s0);
            } else {
                let w = choose|j: int| 0 <= j < s0.len() && node_holds(#[trigger] s0[j], find_handle);
                assert(found);
                if exists|j: int| 0 <= j < s0.len() && node_holds(#[trigger] mid[j], handle) {
                    let j = choose|j: int| 0 <= j < s0.len() && node_holds(#[trigger] mid[j], handle);
                    assert(fin[j] == mid[j]);
                } else {
                    let k = choose|k: int| 0 <= k < made.len() && node_holds(#[trigger] made[k], handle);
                    assert(fin[mid.len() + k] == made[k]);
                }
            }
        }
        proof {
            let fin = self.splits@;
            assert(fin.subrange(s0.len() as int, fin.len() as int) =~= made_all(ws));
            assert(arena_split_post(s0, fin, ws, sh, find_handle, handle, direction));
            if handle != find_handle {
                lemma_made_bound(s0, fin, ws, sh, find_handle, handle, direction);
                assert(fin.len() == s0.len() + made_all(ws).len());
            }
        }
    }

    /// Takes dock `handle` out of the first container that holds it.
    fn delete_handle(splits: &mut Vec<Split>, handle: DockHandle)
        ensures
            final(splits)@.len() == old(splits)@.len(),
            !dock_in_arena(old(splits)@, handle) ==> final(splits)@ == old(splits)@,
            dock_in_arena(old(splits)@, handle) ==> exists|i: int|
                0 <= i < old(splits)@.len() && node_holds(old(splits)@[i], handle) && (forall|j: int|
                    0 <= j < i ==> !node_holds(#[trigger] old(splits)@[j], handle))
                    && final(splits)@ == old(splits)@.update(i, final(splits)@[i]) && node_removed(
                    old(splits)@[i],
                    final(splits)@[i],
                    handle,
                ),
    {
        let ghost s0 = splits@;
        let mut i: usize = 0;
        while i < splits.len()
            invariant
                i <= splits@.len(),
                splits@ == s0,
                s0 == old(splits)@,
                forall|j: int| 0 <= j < i ==> !node_holds(#[trigger] s0[j], handle),
            decreases splits@.len() - i,
        {
            if splits[i].left_docks.remove_handle(handle) {
                proof {
                    assert(splits@ == s0.update(i as int, splits@[i as int]));
                    assert(splits@.len() == s0.len());
                    assert(node_removed(s0[i as int], splits@[i as int], handle));
                    assert(node_holds(s0[i as int], handle));
                }
                return;
            }
            if splits[i].right_docks.remove_handle(handle) {
                proof {
                    assert(splits@ == s0.update(i as int, splits@[i as int]));
                    assert(splits@.len() == s0.len());
                    assert(node_removed(s0[i as int], splits@[i as int], handle));
                    assert(node_holds(s0[i as int], handle));
                }
                return;
            }
            assert(splits@ =~= s0);
            i += 1;
        }
        proof {
            if dock_in_arena(s0, handle) {
                let k = choose|k: int| 0 <= k < s0.len() && node_holds(#[trigger] s0[k], handle);
                assert(!node_holds(s0[k], handle));
            }
        }
    }

    /// Clears every child reference to `h`, giving the other side of that parent the whole
    /// rect.
    fn detach(splits: &mut Vec<Split>, h: SplitHandle)
        ensures
            final(splits)@.len() == old(splits)@.len(),
            forall|j: int|
                0 <= j < old(splits)@.len() ==> {
                    let a = old(splits)@[j];
                    let b = #[trigger] final(splits)@[j];
                    &&& b.left_docks == a.left_docks
                    &&& b.right_docks == a.right_docks
                    &&& b.handle == a.handle
                    &&& b.direction == a.direction
                    &&& b.rect == a.rect
                    &&& b.left == (if a.left == Some(h) { None } else { a.left })
                    &&& b.right == (if a.right == Some(h) { None } else { a.right })
                    &&& b.ratio == (if a.right == Some(h) {
                        RATIO_ONE
                    } else if a.left == Some(h) {
                        0
                    } else {
                        a.ratio
                    })
                },
    {
        let mut j: usize = 0;
        while j < splits.len()
            invariant
                j <= splits@.len(),
                splits@.len() == old(splits)@.len(),
                forall|k: int| j <= k < splits@.len() ==> #[trigger] splits@[k] == old(splits)@[k],
                forall|k: int|
                    0 <= k < j ==> {
                        let a = old(splits)@[k];
                        let b = #[trigger] splits@[k];
                        &&& b.left_docks == a.left_docks
                        &&& b.right_docks == a.right_docks
                        &&& b.handle == a.handle
                        &&& b.direction == a.direction
                        &&& b.rect == a.rect
                        &&& b.left == (if a.left == Some(h) { None } else { a.left })
                        &&& b.right == (if a.right == Some(h) { None } else { a.right })
                        &&& b.ratio == (if a.right == Some(h) {
                            RATIO_ONE
                        } else if a.left == Some(h) {
                            0
                        } else {
                            a.ratio
                        })
                    },
            decreases splits@.len() - j,
        {
            if let Some(l) = splits[j].left {
                if l == h {
                    splits[j].ratio = 0;
                    splits[j].left = None;
                }
            }
            if let Some(r) = splits[j].right {
                if r == h {
                    splits[j].ratio = RATIO_ONE;
                    splits[j].right = None;
                }
            }
            j += 1;
        }
    }

    /// Removes one node other than the root whose sides are both empty, detaching it from
    /// its parents; false when there is none.
    fn clean_splits(splits: &mut Vec<Split>) -> (r: bool)
        requires
            arena_ok(old(splits)@),
            has_split(old(splits)@, SplitHandle(0)),
        ensures
            arena_ok(final(splits)@),
            has_split(final(splits)@, SplitHandle(0)),
            forall|h: SplitHandle| has_split(final(splits)@, h) ==> has_split(old(splits)@, h),
            forall|d: DockHandle| dock_in_arena(final(splits)@, d) == dock_in_arena(old(splits)@, d),
            forall|d: DockHandle| #[trigger] dock_count(final(splits)@, d) == dock_count(old(splits)@, d),
            forall|d: Dock| #[trigger] dock_mult(final(splits)@, d) == dock_mult(old(splits)@, d),
            !r ==> final(splits)@ == old(splits)@ && merged(old(splits)@),
            r ==> final(splits)@.len() == old(splits)@.len() - 1,
            all_kept(old(splits)@, final(splits)@),
    {
        let ghost s0 = splits@;
        proof {
            lemma_all_kept_refl(s0);
        }
        if splits.len() == 1 {
            proof {
                let k = choose|k: int| 0 <= k < s0.len() && (#[trigger] s0[k]).handle == SplitHandle(0);
                assert(k == 0);
            }
            return false;
        }
        let mut i: usize = splits.len();
        while i > 0
            invariant
                i <= splits@.len(),
                splits@ == s0,
                s0 == old(splits)@,
                arena_ok(s0),
                has_split(s0, SplitHandle(0)),
                forall|j: int|
                    i <= j < s0.len() && (#[trigger] s0[j]).handle != SplitHandle(0) ==> !(
                    s0[j].left_empty() && s0[j].right_empty()),
            decreases i,
        {
            i -= 1;
            if splits[i].handle != SplitHandle(0) && splits[i].is_left_zero_and_none()
                && splits[i].is_right_zero_and_none() {
                let h = splits[i].handle;
                Self::detach(splits, h);
                let ghost d = splits@;
                splits.swap_remove(i);
                proof {
                    let f = splits@;
                    let n = s0.len();
                    assert forall|g: SplitHandle| #[trigger] has_split(s0, g) && g != h implies has_split(f, g) by {
                        let k = choose|k: int| 0 <= k < n && (#[trigger] s0[k]).handle == g;
                        let m = if k == n - 1 { i as int } else { k };
                        assert(d[k].handle == g);
                        assert(f[m] == d[k]);
                    }
                    assert(has_split(s0, SplitHandle(0)));
                    assert(SplitHandle(0) != h);
                    assert(has_split(f, SplitHandle(0)));
                    assert forall|g: SplitHandle| has_split(f, g) implies has_split(s0, g) by {
                        let m = choose|m: int| 0 <= m < f.len() && (#[trigger] f[m]).handle == g;
                        let k = if m == i { n - 1 } else { m };
                        assert(f[m] == d[k]);
                        assert(s0[k].handle == g);
                    }
                    assert forall|j: int| 0 <= j < f.len() implies {
                        &&& (#[trigger] f[j]).ratio <= RATIO_ONE
                        &&& (f[j].left matches Some(g) ==> has_split(f, g))
                        &&& (f[j].right matches Some(g) ==> has_split(f, g))
                    } by {
                        let k = if j == i { n - 1 } else { j };
                        assert(f[j] == d[k]);
                        assert(s0[k].ratio <= RATIO_ONE);
                        if let Some(g) = f[j].left {
                            assert(s0[k].left == Some(g));
                            assert(has_split(s0, g));
                            assert(g != h);
                            assert(has_split(f, g));
                        }
                        if let Some(g) = f[j].right {
                            assert(s0[k].right == Some(g));
                            assert(has_split(s0, g));
                            assert(g != h);
                            assert(has_split(f, g));
                        }
                    }
                    assert forall|dh: DockHandle| #[trigger] dock_count(f, dh) == dock_count(s0, dh) by {
                        lemma_count_same_docks(s0, d, dh);
                        lemma_count_swap_remove_empty(d, i as int, dh);
                    }
                    assert(all_kept(s0, f)) by {
                        assert forall|j: int| 0 <= j < f.len() implies kept_from(s0, #[trigger] f[j]) by {
                            let k = if j == i { n - 1 } else { j };
                            assert(f[j] == d[k]);
                            assert(kept(s0[k], f[j]));
                        }
                    }
                    assert forall|x: Dock| #[trigger] dock_mult(f, x) == dock_mult(s0, x) by {
                        lemma_mult_same_docks(s0, d, x);
                        lemma_mult_swap_remove_empty(d, i as int, x);
                    }
                    assert forall|dh: DockHandle| dock_in_arena(f, dh) == dock_in_arena(s0, dh) by {
                        if dock_in_arena(f, dh) {
                            let m = choose|m: int| 0 <= m < f.len() && node_holds(#[trigger] f[m], dh);
                            let k = if m == i { n - 1 } else { m };
                            assert(f[m] == d[k]);
                            assert(node_holds(s0[k], dh));
                        }
                        if dock_in_arena(s0, dh) {
                            let k = choose|k: int| 0 <= k < n && node_holds(#[trigger] s0[k], dh);
                            assert(k != i);
                            let m = if k == n - 1 { i as int } else { k };
                            assert(f[m] == d[k]);
                            assert(node_holds(f[m], dh));
                        }
                    }
                }
                return true;
            }
        }
        false
    }

    /// Merges away empty nodes until none but the root is left with two empty sides; a
    /// lone root with two empty sides loses its direction.
    fn cleanup_after_delete(splits: &mut Vec<Split>)
        requires
            arena_ok(old(splits)@),
            has_split(old(splits)@, SplitHandle(0)),
        ensures
            arena_ok(final(splits)@),
            has_split(final(splits)@, SplitHandle(0)),
            merged(final(splits)@),
            final(splits)@.len() <= old(splits)@.len(),
            forall|h: SplitHandle| has_split(final(splits)@, h) ==> has_split(old(splits)@, h),
            forall|d: DockHandle| dock_in_arena(final(splits)@, d) == dock_in_arena(old(splits)@, d),
            forall|d: DockHandle| #[trigger] dock_count(final(splits)@, d) == dock_count(old(splits)@, d),
            forall|d: Dock| #[trigger] dock_mult(final(splits)@, d) == dock_mult(old(splits)@, d),
            all_kept(old(splits)@, final(splits)@),
            final(splits)@.len() == 1 && final(splits)@[0].left_empty() && final(splits)@[0].right_empty()
                ==> final(splits)@[0].direction == Direction::Full,
            old(splits)@.len() == 1 ==> final(splits)@.len() == 1 && {
                let a = old(splits)@[0];
                let b = final(splits)@[0];
                &&& b.left == a.left
                &&& b.right == a.right
                &&& b.left_docks == a.left_docks
                &&& b.right_docks == a.right_docks
                &&& b.ratio == a.ratio
                &&& b.handle == a.handle
                &&& b.rect == a.rect
                &&& b.direction == (if a.left_empty() && a.right_empty() {
                    Direction::Full
                } else {
                    a.direction
                })
            },
    {
        let ghost s0 = splits@;
        proof {
            lemma_all_kept_refl(s0);
        }
        let mut changed = true;
        while changed
            invariant
                arena_ok(splits@),
                has_split(splits@, SplitHandle(0)),
                splits@.len() <= s0.len(),
                s0 == old(splits)@,
                forall|h: SplitHandle| has_split(splits@, h) ==> has_split(s0, h),
                forall|d: DockHandle| dock_in_arena(splits@, d) == dock_in_arena(s0, d),
                forall|d: DockHandle| #[trigger] dock_count(splits@, d) == dock_count(s0, d),
                forall|d: Dock| #[trigger] dock_mult(splits@, d) == dock_mult(s0, d),
                all_kept(s0, splits@),
                !changed ==> merged(splits@),
                s0.len() == 1 ==> splits@ == s0,
            decreases splits@.len() + (if changed { 1int } else { 0int }),
        {
            let ghost before = splits@;
            changed = Self::clean_splits(splits);
            proof {
                lemma_all_kept_trans(s0, before, splits@);
                if s0.len() == 1 && changed {
                    let k = choose|k: int| 0 <= k < before.len() && (#[trigger] before[k]).handle == SplitHandle(0);
                    let m = choose|m: int| 0 <= m < splits@.len() && (#[trigger] splits@[m]).handle == SplitHandle(0);
                    assert(false);
                }
            }
        }
        if splits.len() == 1 && splits[0].is_left_zero_and_none() && splits[0].is_right_zero_and_none() {
            let ghost before = splits@;
            splits[0].direction = Direction::Full;
            proof {
                assert forall|h: SplitHandle| has_split(splits@, h) implies has_split(before, h) by {
                    let m = choose|m: int| 0 <= m < splits@.len() && (#[trigger] splits@[m]).handle == h;
                    assert(before[m].handle == h);
                }
                let m = choose|m: int| 0 <= m < before.len() && (#[trigger] before[m]).handle == SplitHandle(0);
                assert(splits@[m].handle == SplitHandle(0));
                assert forall|i: int| 0 <= i < splits@.len() implies {
                    &&& (#[trigger] splits@[i]).ratio <= RATIO_ONE
                    &&& (splits@[i].left matches Some(g) ==> has_split(splits@, g))
                    &&& (splits@[i].right matches Some(g) ==> has_split(splits@, g))
                } by {
                    assert(before[i].ratio <= RATIO_ONE);
                    if let Some(g) = splits@[i].left {
                        assert(has_split(before, g));
                        let w = choose|w: int| 0 <= w < before.len() && (#[trigger] before[w]).handle == g;
                        assert(splits@[w].handle == g);
                    }
                    if let Some(g) = splits@[i].right {
                        assert(has_split(before, g));
                        let w = choose|w: int| 0 <= w < before.len() && (#[trigger] before[w]).handle == g;
                        assert(splits@[w].handle == g);
                    }
                }
                assert forall|d: DockHandle| dock_in_arena(splits@, d) == dock_in_arena(before, d) by {
                    if dock_in_arena(before, d) {
                        assert(node_holds(splits@[0], d) == node_holds(before[0], d));
                    }
                    if dock_in_arena(splits@, d) {
                        assert(node_holds(splits@[0], d) == node_holds(before[0], d));
                    }
                }
                assert(merged(splits@));
                assert forall|d: DockHandle| #[trigger] dock_count(splits@, d) == dock_count(before, d) by {
                    lemma_count_same_docks(splits@, before, d);
                }
                assert forall|d: Dock| #[trigger] dock_mult(splits@, d) == dock_mult(before, d) by {
                    lemma_mult_same_docks(splits@, before, d);
                }
                assert(all_kept(before, splits@)) by {
                    assert(kept(before[0], splits@[0]));
                    assert(kept_from(before, splits@[0]));
                }
                lemma_all_kept_trans(s0, before, splits@);
            }
        }
    }

    /// Gives the other side the whole rect wherever a side is empty.
    fn adjust_percentages(splits: &mut Vec<Split>)
        ensures
            final(splits)@.len() == old(splits)@.len(),
            forall|j: int|
                0 <= j < old(splits)@.len() ==> {
                    let a = old(splits)@[j];
                    let b = #[trigger] final(splits)@[j];
                    &&& b.left == a.left
                    &&& b.right == a.right
                    &&& b.left_docks == a.left_docks
                    &&& b.right_docks == a.right_docks
                    &&& b.direction == a.direction
                    &&& b.handle == a.handle
                    &&& b.rect == a.rect
                    &&& b.ratio == normalized_ratio(a)
                },
    {
        let mut j: usize = 0;
        while j < splits.len()
            invariant
                j <= splits@.len(),
                splits@.len() == old(splits)@.len(),
                forall|k: int| j <= k < splits@.len() ==> #[trigger] splits@[k] == old(splits)@[k],
                forall|k: int|
                    0 <= k < j ==> {
                        let a = old(splits)@[k];
                        let b = #[trigger] splits@[k];
                        &&& b.left == a.left
                        &&& b.right == a.right
                        &&& b.left_docks == a.left_docks
                        &&& b.right_docks == a.right_docks
                        &&& b.direction == a.direction
                        &&& b.handle == a.handle
                        &&& b.rect == a.rect
                        &&& b.ratio == normalized_ratio(a)
                    },
            decreases splits@.len() - j,
        {
            if splits[j].is_left_zero_and_none() {
                splits[j].ratio = 0;
            } else if splits[j].is_right_zero_and_none() {
                splits[j].ratio = RATIO_ONE;
            }
            j += 1;
        }
    }

    /// Closes dock `handle`, then merges away the nodes this empties and gives each node
    /// with an empty side's share to the other side.
    pub fn delete_by_handle(&mut self, handle: DockHandle)
        requires
            old(self).wf(),
        ensures
            final(self).wf(),
            final(self).rect == old(self).rect,
            final(self).window_border == old(self).window_border,
            final(self).handle_counter == old(self).handle_counter,
            merged(final(self).splits@),
            forall|j: int|
                0 <= j < final(self).splits@.len() ==> merged_from_some(old(self).splits@, #[trigger] final(self).splits@[j]),
            dock_count(final(self).splits@, handle) == dock_count(old(self).splits@, handle) - (if dock_in_arena(
                old(self).splits@,
                handle,
            ) {
                1int
            } else {
                0int
            }),
            forall|d: Dock|
                d.handle != handle ==> #[trigger] dock_mult(final(self).splits@, d) == dock_mult(old(self).splits@, d),
            dock_count(old(self).splits@, handle) <= 1 ==> !dock_in_arena(final(self).splits@, handle),
            forall|h: SplitHandle| has_split(final(self).splits@, h) ==> has_split(old(self).splits@, h),
            final(self).splits@.len() == 1 && final(self).splits@[0].left_empty()
                && final(self).splits@[0].right_empty() ==> final(self).splits@[0].direction == Direction::Full,
            ratios_normalized(final(self).splits@),
            final(self).splits@.len() <= old(self).splits@.len(),
            forall|d: DockHandle|
                d != handle ==> dock_in_arena(final(self).splits@, d) == dock_in_arena(
                    old(self).splits@,
                    d,
                ),
            old(self).splits@.len() == 1 ==> final(self).splits@.len() == 1 && single_node_deleted(
                old(self).splits@[0],
                final(self).splits@[0],
                handle,
            ),
    {
        let ghost s0 = self.splits@;
        Self::delete_handle(&mut self.splits, handle);
        let ghost s1 = self.splits@;
        proof {
            if dock_in_arena(s0, handle) {
                let i = choose|i: int|
                    0 <= i < s0.len() && node_holds(s0[i], handle) && (forall|j: int|
                        0 <= j < i ==> !node_holds(#[trigger] s0[j], handle)) && s1 == s0.update(i, s1[i])
                        && node_removed(s0[i], s1[i], handle);
                assert forall|j: int| 0 <= j < s0.len() implies (#[trigger] s1[j]).handle == s0[j].handle
                    && s1[j].left == s0[j].left && s1[j].right == s0[j].right && s1[j].ratio == s0[j].ratio by {
                    if j != i {
                        assert(s1[j] == s0[j]);
                    }
                }
                assert forall|d: DockHandle| d != handle implies dock_in_arena(s1, d) == dock_in_arena(s0, d) by {
                    let a = s0[i];
                    let b = s1[i];
                    if has_dock(a.left_docks.docks@, handle) {
                        let k = choose|k: int| last_dock(a.left_docks.docks@, handle, k) && b.left_docks.docks@
                            == swap_removed(a.left_docks.docks@, k);
                        lemma_swap_removed_keeps(a.left_docks.docks@, handle, k, d);
                    } else {
                        let k = choose|k: int| last_dock(a.right_docks.docks@, handle, k) && b.right_docks.docks@
                            == swap_removed(a.right_docks.docks@, k);
                        lemma_swap_removed_keeps(a.right_docks.docks@, handle, k, d);
                    }
                    assert(node_holds(a, d) == node_holds(b, d));
                    if dock_in_arena(s0, d) {
                        let m = choose|m: int| 0 <= m < s0.len() && node_holds(#[trigger] s0[m], d);
                        assert(node_holds(s1[m], d));
                    }
                    if dock_in_arena(s1, d) {
                        let m = choose|m: int| 0 <= m < s1.len() && node_holds(#[trigger] s1[m], d);
                        assert(node_holds(s0[m], d));
                    }
                }
                assert forall|h: SplitHandle| has_split(s0, h) implies has_split(s1, h) by {
                    let m = choose|m: int| 0 <= m < s0.len() && (#[trigger] s0[m]).handle == h;
                    assert(s1[m].handle == h);
                }
            }
            assert(arena_ok(s1));
            assert(has_split(s1, SplitHandle(0)));
            if dock_in_arena(s0, handle) {
                let i = choose|i: int|
                    0 <= i < s0.len() && node_holds(s0[i], handle) && (forall|j: int|
                        0 <= j < i ==> !node_holds(#[trigger] s0[j], handle)) && s1 == s0.update(i, s1[i])
                        && node_removed(s0[i], s1[i], handle);
                lemma_node_removed_count(s0[i], s1[i], handle);
                lemma_total_update(s0, |n: Split| node_count(n, handle), i, s1[i]);
                assert forall|d: Dock| d.handle != handle implies #[trigger] dock_mult(s1, d) == dock_mult(s0, d) by {
                    let a = s0[i];
                    let b = s1[i];
                    if has_dock(a.left_docks.docks@, handle) {
                        let k = choose|k: int| last_dock(a.left_docks.docks@, handle, k) && b.left_docks.docks@
                            == swap_removed(a.left_docks.docks@, k);
                        lemma_mult_swap_removed(a.left_docks.docks@, handle, k, d);
                    } else {
                        let k = choose|k: int| last_dock(a.right_docks.docks@, handle, k) && b.right_docks.docks@
                            == swap_removed(a.right_docks.docks@, k);
                        lemma_mult_swap_removed(a.right_docks.docks@, handle, k, d);
                    }
                    lemma_total_update(s0, |n: Split| count_dock(n.left_docks.docks@, d) + count_dock(n.right_docks.docks@, d), i, s1[i]);
                }
            } else {
                assert(s1 == s0);
            }
        }
        Self::cleanup_after_delete(&mut self.splits);
        let ghost s2 = self.splits@;
        Self::adjust_percentages(&mut self.splits);
        proof {
            let s3 = self.splits@;
            assert forall|h: SplitHandle| has_split(s2, h) implies has_split(s3, h) by {
                let m = choose|m: int| 0 <= m < s2.len() && (#[trigger] s2[m]).handle == h;
                assert(s3[m].handle == h);
            }
            assert forall|h: SplitHandle| has_split(s2, h) implies has_split(s1, h) by {}
            assert forall|h: SplitHandle| has_split(s1, h) implies has_split(s0, h) by {
                let m = choose|m: int| 0 <= m < s1.len() && (#[trigger] s1[m]).handle == h;
                if dock_in_arena(s0, handle) {
                    assert(s1[m].handle == s0[m].handle);
                } else {
                    assert(s1 == s0);
                }
            }
            assert forall|j: int| 0 <= j < s3.len() implies (#[trigger] s3[j]).handle.0 <= self.handle_count() by {
                assert(has_split(s2, s2[j].handle));
                assert(has_split(s0, s2[j].handle));
                let m = choose|m: int| 0 <= m < s0.len() && (#[trigger] s0[m]).handle == s2[j].handle;
            }
            assert forall|i: int| 0 <= i < s3.len() implies {
                &&& (#[trigger] s3[i]).ratio <= RATIO_ONE
                &&& (s3[i].left matches Some(g) ==> has_split(s3, g))
                &&& (s3[i].right matches Some(g) ==> has_split(s3, g))
            } by {
                assert(s2[i].ratio <= RATIO_ONE);
            }
            assert(merged(s3)) by {
                assert forall|i: int| 0 <= i < s3.len() && (#[trigger] s3[i]).handle != SplitHandle(0)
                    implies !(s3[i].left_empty() && s3[i].right_empty()) by {
                    assert(s2[i].handle != SplitHandle(0));
                }
            }
            assert forall|d: DockHandle| dock_in_arena(s3, d) == dock_in_arena(s2, d) by {
                if dock_in_arena(s2, d) {
                    let m = choose|m: int| 0 <= m < s2.len() && node_holds(#[trigger] s2[m], d);
                    assert(node_holds(s3[m], d));
                }
                if dock_in_arena(s3, d) {
                    let m = choose|m: int| 0 <= m < s3.len() && node_holds(#[trigger] s3[m], d);
                    assert(node_holds(s2[m], d));
                }
            }
            if !dock_in_arena(s0, handle) {
                assert(s1 == s0);
            }
            assert(ratios_normalized(s3)) by {
                assert forall|i: int| 0 <= i < s3.len() implies (#[trigger] s3[i]).ratio == normalized_ratio(s3[i]) by {
                    assert(s3[i].left_docks == s2[i].left_docks);
                }
            }
            lemma_count_same_docks(s3, s2, handle);
            assert forall|j: int| 0 <= j < s3.len() implies merged_from_some(s0, #[trigger] s3[j]) by {
                assert(kept_from(s1, s2[j]));
                let k = choose|k: int| 0 <= k < s1.len() && #[trigger] kept(s1[k], s2[j]);
                if dock_in_arena(s0, handle) {
                    assert(s1[k].left == s0[k].left && s1[k].right == s0[k].right && s1[k].ratio == s0[k].ratio
                        && s1[k].handle == s0[k].handle);
                } else {
                    assert(s1 == s0);
                }
                assert(merged_from(s0[k], s3[j]));
            }
            assert forall|d: Dock| d.handle != handle implies #[trigger] dock_mult(s3, d) == dock_mult(s0, d) by {
                lemma_mult_same_docks(s3, s2, d);
            }
            lemma_arena_count_present(s0, handle);
            lemma_arena_count_present(s3, handle);
            if s0.len() == 1 {
                let a = s0[0];
                let b = s3[0];
                if dock_in_arena(s0, handle) {
                    assert(node_holds(s0[0], handle));
                    assert(s1[0] == s1[0]);
                } else {
                    assert(s1 == s0);
                }
                assert(single_node_deleted(a, b, handle));
            }
        }
    }

    /// Same as `split`: opens a dock in a workspace that has only its root node.
    pub fn new_split(&mut self, handle: DockHandle, direction: Direction)
        requires
            old(self).wf(),
            old(self).handle_count() < u64::MAX,
        ensures
            final(self).wf(),
            final(self).rect == old(self).rect,
            final(self).window_border == old(self).window_border,
            old(self).splits@.len() != 1 ==> final(self).splits@ == old(self).splits@,
            old(self).splits@.len() == 1 ==> dock_in_arena(final(self).splits@, handle),
            old(self).splits@.len() == 1 && (old(self).splits@[0].left_empty()
                || old(self).splits@[0].right_empty()) ==> final(self).splits@.len() == 1
                && Split::placed_post(
                old(self).splits@[0],
                final(self).splits@[0],
                direction,
                handle,
                true,
            ),
            old(self).splits@.len() == 1 && !(old(self).splits@[0].left_empty()
                || old(self).splits@[0].right_empty()) ==> {
                let a = old(self).splits@[0];
                let b = final(self).splits@[0];
                let n = final(self).splits@[1];
                &&& final(self).splits@.len() == 2
                &&& n.handle == final(self).handle_counter
                &&& n.handle != SplitHandle(0)
                &&& n.handle != a.handle
                &&& n.left is None
                &&& n.right is None
                &&& n.ratio == crate::split::RATIO_HALF
                &&& b.handle == a.handle
                &&& b.right == a.right
                &&& b.ratio == crate::split::RATIO_HALF
                &&& n.direction == direction
                &&& holds_fresh_dock(n.left_docks, handle)
                &&& n.right_docks.docks@ == a.left_docks.docks@
                &&& b.left == Some(n.handle)
                &&& b.left_docks.docks@.len() == 0
                &&& b.right_docks.docks@ == a.right_docks.docks@
            },
            final(self).handle_count() == old(self).handle_count() + (if old(self).splits@.len() == 1 {
                1int
            } else {
                0int
            }),
    {
        self.split(handle, direction)
    }

    /// The rect of the first container that holds dock `handle`.
    pub fn get_rect_by_handle(&self, handle: DockHandle) -> (r: Option<Rect>)
        ensures
            r == dock_rect(self.splits@, handle),
            r is None <==> !dock_in_arena(self.splits@, handle),
            r matches Some(rect) ==> exists|i: int|
                0 <= i < self.splits@.len() && node_holds(self.splits@[i], handle) && (forall|j: int|
                    0 <= j < i ==> !node_holds(#[trigger] self.splits@[j], handle)) && rect == (if has_dock(
                    self.splits@[i].left_docks.docks@,
                    handle,
                ) {
                    self.splits@[i].left_docks.rect
                } else {
                    self.splits@[i].right_docks.rect
                }),
    {
        let mut i: usize = 0;
        while i < self.splits.len()
            invariant
                i <= self.splits@.len(),
                forall|j: int| 0 <= j < i ==> !node_holds(#[trigger] self.splits@[j], handle),
            decreases self.splits@.len() - i,
        {
            if let Some(rect) = self.splits[i].left_docks.get_rect_by_handle(handle) {
                proof {
                    assert(node_holds(self.splits@[i as int], handle));
                    assert(first_holder(self.splits@, handle, i as int));
                    let j = choose|j: int| first_holder(self.splits@, handle, j);
                    lemma_first_holder_unique(self.splits@, handle, i as int, j);
                }
                return Some(rect);
            }
            if let Some(rect) = self.splits[i].right_docks.get_rect_by_handle(handle) {
                proof {
                    assert(node_holds(self.splits@[i as int], handle));
                    assert(first_holder(self.splits@, handle, i as int));
                    let j = choose|j: int| first_holder(self.splits@, handle, j);
                    lemma_first_holder_unique(self.splits@, handle, i as int, j);
                }
                return Some(rect);
            }
            i += 1;
        }
        proof {
            if dock_in_arena(self.splits@, handle) {
                let k = choose|k: int| 0 <= k < self.splits@.len() && node_holds(#[trigger] self.splits@[k], handle);
                assert(!node_holds(self.splits@[k], handle));
            }
        }
        None
    }

    /// The dock under `pos`: the first dock of the smallest container that `pos` falls in,
    /// the earliest one among equals.
    pub fn get_hover_dock(&self, pos: (i32, i32)) -> (r: Option<DockHandle>)
        ensures
            r is None <==> !any_hit(self.splits@, self.splits@.len() as int, pos),
            r matches Some(d) ==> hovered(self.splits@, pos, d),
    {
        let mut best: Option<(DockHandle, i64)> = None;
        let mut i: usize = 0;
        while i < self.splits.len()
            invariant
                i <= self.splits@.len(),
                best is None <==> !any_hit(self.splits@, i as int, pos),
                best matches Some(b) ==> no_smaller_hit(self.splits@, i as int, pos, b.1 as int)
                    && exists|k: int, right: bool|
                    0 <= k < i && hit_by(#[trigger] side_of(self.splits@[k], right), pos, b.0) && area(
                        side_of(self.splits@[k], right),
                    ) == b.1 && none_before(self.splits@, k, right, pos, b.1 as int),
            decreases self.splits@.len() - i,
        {
            let ghost b0 = best;
            let ghost mut src: int = 0;
            if let Some(data) = self.splits[i].left_docks.is_inside(pos) {
                let better = match best {
                    None => true,
                    Some(b) => data.1 < b.1,
                };
                if better {
                    best = Some(data);
                    proof { src = 1; }
                }
            }
            let ghost b1 = best;
            let ghost src1 = src;
            if let Some(data) = self.splits[i].right_docks.is_inside(pos) {
                let better = match best {
                    None => true,
                    Some(b) => data.1 < b.1,
                };
                if better {
                    best = Some(data);
                    proof { src = 2; }
                }
            }
            proof {
                let sp = self.splits@;
                let n = i as int;
                assert(any_hit(sp, n + 1, pos) == (any_hit(sp, n, pos) || hit(sp[n].left_docks, pos) || hit(
                    sp[n].right_docks, pos))) by {
                    if any_hit(sp, n + 1, pos) && !hit(sp[n].left_docks, pos) && !hit(sp[n].right_docks, pos) {
                        let k = choose|k: int| 0 <= k < n + 1 && (hit((#[trigger] sp[k]).left_docks, pos) || hit(sp[k].right_docks, pos));
                        assert(k < n);
                    }
                    if any_hit(sp, n, pos) {
                        let k = choose|k: int| 0 <= k < n && (hit((#[trigger] sp[k]).left_docks, pos) || hit(sp[k].right_docks, pos));
                    }
                }
                if let Some(b) = best {
                    assert(no_smaller_hit(sp, n + 1, pos, b.1 as int)) by {
                        assert forall|j: int| 0 <= j < n + 1 implies (hit((#[trigger] sp[j]).left_docks, pos) ==> area(sp[j].left_docks) >= b.1)
                            && (hit(sp[j].right_docks, pos) ==> area(sp[j].right_docks) >= b.1) by {
                            if j < n {
                                if let Some(c) = b0 {
                                    assert(c.1 >= b.1);
                                }
                            }
                        }
                    }
                    if src == 0 {
                        let c = b0.unwrap();
                        let (k, right) = choose|k: int, right: bool|
                            0 <= k < n && hit_by(#[trigger] side_of(sp[k], right), pos, c.0) && area(
                                side_of(sp[k], right),
                            ) == c.1 && none_before(sp, k, right, pos, c.1 as int);
                        assert(hit_by(side_of(sp[k], right), pos, b.0));
                    } else {
                        // every container seen earlier that `pos` hits is larger than the new pick
                        assert forall|j: int| 0 <= j < n implies (hit((#[trigger] sp[j]).left_docks, pos) ==> area(
                            sp[j].left_docks) > b.1) && (hit(sp[j].right_docks, pos) ==> area(sp[j].right_docks) > b.1) by {
                            if let Some(c) = b0 {
                                assert(c.1 > b.1) by {
                                    if src == 2 && src1 == 1 {
                                        assert(b1.unwrap().1 < c.1);
                                    }
                                }
                            } else {
                                if hit(sp[j].left_docks, pos) || hit(sp[j].right_docks, pos) {
                                    assert(any_hit(sp, n, pos));
                                }
                            }
                        }
                        if src == 1 {
                            assert(hit_by(side_of(sp[n], false), pos, b.0));
                            assert(none_before(sp, n, false, pos, b.1 as int));
                        } else {
                            assert(hit(sp[n].left_docks, pos) ==> area(sp[n].left_docks) > b.1) by {
                                if hit(sp[n].left_docks, pos) {
                                    assert(b1 is Some);
                                }
                            }
                            assert(hit_by(side_of(sp[n], true), pos, b.0));
                            assert(none_before(sp, n, true, pos, b.1 as int));
                        }
                    }
                }
            }
            i += 1;
        }
        proof {
            if let Some(b) = best {
                let sp = self.splits@;
                let (k, right) = choose|k: int, right: bool|
                    0 <= k < i && hit_by(#[trigger] side_of(sp[k], right), pos, b.0) && area(side_of(sp[k], right))
                        == b.1 && none_before(sp, k, right, pos, b.1 as int);
                assert(hover_pick(sp, sp.len() as int, pos, k, right, b.0));
            }
        }
        match best {
            Some(b) => {
                let d = b.0;
                assert(hovered(self.splits@, pos, d));
                Some(d)
            },
            None => None,
        }
    }

    /// Drags the sizer of the first node with `handle` by `delta`.
    pub fn drag_sizer(&mut self, handle: SplitHandle, delta: (i32, i32))
        requires
            old(self).wf(),
        ensures
            final(self).wf(),
            final(self).rect == old(self).rect,
            final(self).window_border == old(self).window_border,
            final(self).handle_counter == old(self).handle_counter,
            !has_split(old(self).splits@, handle) ==> final(self).splits@ == old(self).splits@,
            has_split(old(self).splits@, handle) ==> exists|i: int|
                first_split(old(self).splits@, handle, i) && final(self).splits@ == old(self).splits@.update(
                    i,
                    final(self).splits@[i],
                ) && same_node(
                    final(self).splits@[i],
                    Split { ratio: final(self).splits@[i].ratio, ..old(self).splits@[i] },
                ) && final(self).splits@[i].rect == old(self).splits@[i].rect
                    && final(self).splits@[i].left_docks.rect == old(self).splits@[i].left_docks.rect
                    && final(self).splits@[i].right_docks.rect == old(self).splits@[i].right_docks.rect
                    && final(self).splits@[i].ratio == clamp_ratio(
                    old(self).splits@[i].ratio + old(self).splits@[i].drag_step(delta),
                ),
    {
        let mut i: usize = 0;
        while i < self.splits.len()
            invariant
                i <= self.splits@.len(),
                *self == *old(self),
                old(self).wf(),
                forall|j: int| 0 <= j < i ==> (#[trigger] self.splits@[j]).handle != handle,
            decreases self.splits@.len() - i,
        {
            if self.splits[i].handle == handle {
                let ghost s0 = self.splits@;
                self.splits[i].change_ratio(delta);
                proof {
                    let s1 = self.splits@;
                    assert(first_split(s0, handle, i as int));
                    assert(s1 == s0.update(i as int, s1[i as int]));
                    assert forall|j: int| 0 <= j < s1.len() implies (#[trigger] s1[j]).handle.0 <= self.handle_count() by {
                        assert(s1[j].handle == s0[j].handle);
                    }
                    assert forall|h: SplitHandle| has_split(s0, h) implies has_split(s1, h) by {
                        let m = choose|m: int| 0 <= m < s0.len() && (#[trigger] s0[m]).handle == h;
                        assert(s1[m].handle == h);
                    }
                    assert forall|j: int| 0 <= j < s1.len() implies {
                        &&& (#[trigger] s1[j]).ratio <= RATIO_ONE
                        &&& (s1[j].left matches Some(g) ==> has_split(s1, g))
                        &&& (s1[j].right matches Some(g) ==> has_split(s1, g))
                    } by {
                        assert(s0[j].ratio <= RATIO_ONE);
                    }
                    assert(has_split(s1, SplitHandle(0)));
                }
                return;
            }
            i += 1;
        }
        proof {
            if has_split(self.splits@, handle) {
                let k = choose|k: int| 0 <= k < self.splits@.len() && (#[trigger] self.splits@[k]).handle == handle;
                assert(self.splits@[k].handle != handle);
            }
        }
    }

    /// The first node whose sizer strip, `SIZER_BORDER` thick, lies under `pos`.
    pub fn is_hovering_sizer(&self, pos: (i32, i32)) -> (r: Option<(SplitHandle, Direction)>)
        ensures
            r is None ==> forall|i: int| 0 <= i < self.splits@.len() ==> !on_sizer(#[trigger] self.splits@[i], pos),
            r matches Some(p) ==> exists|i: int|
                0 <= i < self.splits@.len() && on_sizer(self.splits@[i], pos) && (forall|j: int|
                    0 <= j < i ==> !on_sizer(#[trigger] self.splits@[j], pos)) && p == (
                    self.splits@[i].handle,
                    self.splits@[i].direction,
                ),
    {
        let mut i: usize = 0;
        while i < self.splits.len()
            invariant
                i <= self.splits@.len(),
                forall|j: int| 0 <= j < i ==> !on_sizer(#[trigger] self.splits@[j], pos),
            decreases self.splits@.len() - i,
        {
            let split = &self.splits[i];
            if split.is_hovering_rect(pos, SIZER_BORDER, split.left_docks.rect) {
                return Some((split.handle, split.direction));
            }
            i += 1;
        }
        None
    }

    /// Renames the first dock with `handle`, searching node by node, left side first.
    pub fn set_name_to_handle(&mut self, name: &String, handle: DockHandle)
        requires
            old(self).wf(),
        ensures
            final(self).wf(),
            final(self).rect == old(self).rect,
            final(self).window_border == old(self).window_border,
            final(self).handle_counter == old(self).handle_counter,
            !dock_in_arena(old(self).splits@, handle) ==> final(self).splits@ == old(self).splits@,
            dock_in_arena(old(self).splits@, handle) ==> exists|i: int|
                0 <= i < old(self).splits@.len() && node_holds(old(self).splits@[i], handle) && (forall|j: int|
                    0 <= j < i ==> !node_holds(#[trigger] old(self).splits@[j], handle))
                    && final(self).splits@ == old(self).splits@.update(i, final(self).splits@[i])
                    && renamed_in(old(self).splits@[i], final(self).splits@[i], handle, name@),
    {
        let mut i: usize = 0;
        while i < self.splits.len()
            invariant
                i <= self.splits@.len(),
                self.splits@ == old(self).splits@,
                self.rect == old(self).rect,
                self.window_border == old(self).window_border,
                self.handle_counter == old(self).handle_counter,
                old(self).wf(),
                forall|j: int| 0 <= j < i ==> !node_holds(#[trigger] self.splits@[j], handle),
            decreases self.splits@.len() - i,
        {
            let ghost s0 = self.splits@;
            if self.splits[i].left_docks.set_dock_name(name, handle) {
                proof { self.lemma_docks_changed_only(s0, i as int); }
                return;
            }
            assert(self.splits@ =~= s0);
            if self.splits[i].right_docks.set_dock_name(name, handle) {
                proof { self.lemma_docks_changed_only(s0, i as int); }
                return;
            }
            assert(self.splits@ =~= s0);
            i += 1;
        }
        proof {
            if dock_in_arena(self.splits@, handle) {
                let k = choose|k: int| 0 <= k < self.splits@.len() && node_holds(#[trigger] self.splits@[k], handle);
                assert(!node_holds(self.splits@[k], handle));
            }
        }
    }

    proof fn lemma_docks_changed_only(&self, s0: Seq<Split>, i: int)
        requires
            0 <= i < s0.len(),
            self.splits@ == s0.update(i, self.splits@[i]),
            self.splits@[i].left == s0[i].left,
            self.splits@[i].right == s0[i].right,
            self.splits@[i].ratio == s0[i].ratio,
            self.splits@[i].handle == s0[i].handle,
            arena_ok(s0),
            has_split(s0, SplitHandle(0)),
            forall|j: int| 0 <= j < s0.len() ==> (#[trigger] s0[j]).handle.0 <= self.handle_count(),
        ensures
            self.wf(),
    {
        let s1 = self.splits@;
        assert forall|h: SplitHandle| has_split(s0, h) implies has_split(s1, h) by {
            let m = choose|m: int| 0 <= m < s0.len() && (#[trigger] s0[m]).handle == h;
            assert(s1[m].handle == h);
        }
        assert forall|j: int| 0 <= j < s1.len() implies (#[trigger] s1[j]).handle.0 <= self.handle_count() by {
            assert(s1[j].handle == s0[j].handle);
        }
        assert forall|j: int| 0 <= j < s1.len() implies {
            &&& (#[trigger] s1[j]).ratio <= RATIO_ONE
            &&& (s1[j].left matches Some(g) ==> has_split(s1, g))
            &&& (s1[j].right matches Some(g) ==> has_split(s1, g))
        } by {
            assert(s0[j].ratio <= RATIO_ONE);
        }
    }

    /// Every dock of the arena, node by node, left side before right side.
    pub fn get_docks(&self) -> (r: Vec<Dock>)
        ensures
            r@ == all_docks(self.splits@),
    {
        let mut docks: Vec<Dock> = Vec::new();
        let mut i: usize = 0;
        while i < self.splits.len()
            invariant
                i <= self.splits@.len(),
                docks@ == all_docks(self.splits@.subrange(0, i as int)),
            decreases self.splits@.len() - i,
        {
            let ghost d0 = docks@;
            let mut j: usize = 0;
            while j < self.splits[i].left_docks.docks.len()
                invariant
                    i < self.splits@.len(),
                    j <= self.splits@[i as int].left_docks.docks@.len(),
                    docks@ == d0 + self.splits@[i as int].left_docks.docks@.subrange(0, j as int),
                decreases self.splits@[i as int].left_docks.docks@.len() - j,
            {
                docks.push(self.splits[i].left_docks.docks[j].duplicate());
                j += 1;
            }
            let ghost d1 = docks@;
            assert(self.splits@[i as int].left_docks.docks@.subrange(0, j as int) == self.splits@[i as int].left_docks.docks@);
            let mut j: usize = 0;
            while j < self.splits[i].right_docks.docks.len()
                invariant
                    i < self.splits@.len(),
                    j <= self.splits@[i as int].right_docks.docks@.len(),
                    docks@ == d1 + self.splits@[i as int].right_docks.docks@.subrange(0, j as int),
                decreases self.splits@[i as int].right_docks.docks@.len() - j,
            {
                docks.push(self.splits[i].right_docks.docks[j].duplicate());
                j += 1;
            }
            proof {
                assert(self.splits@[i as int].right_docks.docks@.subrange(0, j as int) == self.splits@[i as int].right_docks.docks@);
                let sub = self.splits@.subrange(0, i + 1);
                assert(sub.drop_last() == self.splits@.subrange(0, i as int));
                assert(sub.last() == self.splits@[i as int]);
            }
            i += 1;
        }
        assert(self.splits@.subrange(0, self.splits@.len() as int) == self.splits@);
        docks
    }
}

} // verus!
