use vstd::prelude::*;

verus! {

/// Denominator of every split ratio: a ratio `r` stands for the fraction `r / RATIO_ONE`.
pub const RATIO_ONE: u32 = 10000;

/// An axis-aligned rectangle in canvas units.
#[derive(Clone, Copy, Debug, PartialEq, Eq, Structural)]
pub struct Rect {
    pub x: i32,
    pub y: i32,
    pub width: i32,
    pub height: i32,
}

/// Half-open containment: `x <= px < x + w` and `y <= py < y + h`.
pub open spec fn inside(px: int, py: int, x: int, y: int, w: int, h: int) -> bool {
    x <= px < x + w && y <= py < y + h
}

/// The part of `size` that a ratio gives to the left/top side.
pub open spec fn part(size: int, ratio: int) -> int {
    size * ratio / (RATIO_ONE as int)
}

/// The sides of a rectangle that is divided by height.
pub open spec fn horizontal_parts(r: Rect, ratio: int) -> (Rect, Rect) {
    let h = part(r.height as int, ratio);
    (
        Rect { x: r.x, y: r.y, width: r.width, height: h as i32 },
        Rect { x: r.x, y: (r.y + h) as i32, width: r.width, height: (r.height - h) as i32 },
    )
}

/// The sides of a rectangle that is divided by width.
pub open spec fn vertical_parts(r: Rect, ratio: int) -> (Rect, Rect) {
    let w = part(r.width as int, ratio);
    (
        Rect { x: r.x, y: r.y, width: w as i32, height: r.height },
        Rect { x: (r.x + w) as i32, y: r.y, width: (r.width - w) as i32, height: r.height },
    )
}

/// A rectangle that can be divided: its size is not negative and its far edges are
/// representable.
pub open spec fn divisible(r: Rect) -> bool {
    r.width >= 0 && r.height >= 0 && r.x + r.width <= i32::MAX && r.y + r.height <= i32::MAX
}

/// A ratio's part of a size lies between zero and the size.
pub proof fn lemma_part_bounds(size: int, ratio: int)
    requires
        0 <= size,
        0 <= ratio <= RATIO_ONE,
    ensures
        0 <= part(size, ratio) <= size,
{
    assert(0 <= size * ratio <= size * (RATIO_ONE as int)) by (nonlinear_arith)
        requires
            0 <= size,
            0 <= ratio <= RATIO_ONE,
    ;
    assert(size * (RATIO_ONE as int) / (RATIO_ONE as int) == size) by (nonlinear_arith);
    assert(part(size, ratio) <= size) by (nonlinear_arith)
        requires
            size * ratio <= size * (RATIO_ONE as int),
            size * (RATIO_ONE as int) / (RATIO_ONE as int) == size,
            part(size, ratio) == size * ratio / (RATIO_ONE as int),
    ;
}

/// The part of `size` given to the left/top side, in exact integer arithmetic.
pub fn ratio_part(size: i32, ratio: u32) -> (r: i32)
    requires
        size >= 0,
        ratio <= RATIO_ONE,
    ensures
        r == part(size as int, ratio as int),
        0 <= r <= size,
{
    proof {
        lemma_part_bounds(size as int, ratio as int);
        assert(0 <= (size as int) * (ratio as int) <= (i32::MAX as int) * (RATIO_ONE as int))
            by (nonlinear_arith)
            requires
                0 <= size <= i32::MAX,
                0 <= ratio <= RATIO_ONE,
        ;
    }
    let p: u64 = (size as u64) * (ratio as u64);
    (p / (RATIO_ONE as u64)) as i32
}

impl Rect {
    /// The rect with these fields.
    pub open spec fn new_spec(x: i32, y: i32, width: i32, height: i32) -> Rect {
        Rect { x, y, width, height }
    }

    #[verifier::when_used_as_spec(new_spec)]
    pub fn new(x: i32, y: i32, width: i32, height: i32) -> (r: Rect)
        ensures
            r == (Rect { x, y, width, height }),
    {
        Rect { x, y, width, height }
    }

    /// Whether `pos` lies in `rect`; the near edges are inside, the far edges outside.
    pub fn is_inside(pos: (i32, i32), rect: Rect) -> (r: bool)
        ensures
            r == inside(pos.0 as int, pos.1 as int, rect.x as int, rect.y as int,
                rect.width as int, rect.height as int),
    {
        let x0 = rect.x as i64;
        let y0 = rect.y as i64;
        let x1 = x0 + rect.width as i64;
        let y1 = y0 + rect.height as i64;
        let px = pos.0 as i64;
        let py = pos.1 as i64;
        px >= x0 && px < x1 && py >= y0 && py < y1
    }
}

} // verus!
