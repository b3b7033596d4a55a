use vstd::prelude::*;
use vstd::string::*;

use crate::container::{Container, Dock, DockHandle};
use crate::decimal::{unsigned_digits, decimal_of, decimal_value, is_decimal, lemma_decimal_of, lemma_signed_round_trip, parse_i32, parse_unsigned, signed_decimal_of, signed_text, signed_value, unsigned_text};
use crate::rect::{divisible, Rect, RATIO_ONE};
use crate::split::{Direction, Split, SplitHandle};
use crate::workspace::{valid_root, arena_ok, has_split, lemma_same_shape, same_node, same_shape, Error, Workspace};

verus! {

/// One `name="value"` pair of an element.
#[derive(Debug)]
pub struct Attribute {
    pub name: String,
    pub value: String,
}

/// One step of a saved layout document: an element opens with its attributes, or closes.
#[derive(Debug)]
pub enum DocEvent {
    Start { name: String, attributes: Vec<Attribute> },
    End { name: String },
}

/// Whether `s` spells exactly `lit`.
pub fn text_is(s: &str, lit: &str) -> (r: bool)
    ensures
        r == (s@ == lit@),
{
    let n = s.unicode_len();
    if n != lit.unicode_len() {
        return false;
    }
    let mut i: usize = 0;
    while i < n
        invariant
            i <= n,
            n == s@.len(),
            n == lit@.len(),
            forall|k: int| 0 <= k < i ==> s@[k] == lit@[k],
        decreases n - i,
    {
        if s.get_char(i) != lit.get_char(i) {
            return false;
        }
        i += 1;
    }
    assert(s@ =~= lit@);
    true
}

fn owned(s: &str) -> (r: String)
    ensures
        r@ == s@,
{
    <String as StringExecFns>::from_str(s)
}

fn attr(name: &str, value: String) -> (r: Attribute)
    ensures
        r.name@ == name@,
        r.value == value,
{
    Attribute { name: owned(name), value }
}

fn start(name: &str, attributes: Vec<Attribute>) -> (r: DocEvent)
    ensures
        r matches DocEvent::Start { name: n, attributes: a } && n@ == name@ && a@ == attributes@,
{
    DocEvent::Start { name: owned(name), attributes }
}

fn end(name: &str) -> (r: DocEvent)
    ensures
        r matches DocEvent::End { name: n } && n@ == name@,
{
    DocEvent::End { name: owned(name) }
}

/// The rect that loading falls back on where the document leaves a field out.
pub open spec fn fallback_rect() -> Rect {
    Rect { x: 0, y: 0, width: 1024, height: 768 }
}

/// The rect that a list of attributes describes, starting from `fallback_rect` and taking
/// each `x`, `y`, `width` and `height` in turn; `None` where one of them is not an `i32`.
pub open spec fn rect_from_attrs(attrs: Seq<Attribute>) -> Option<Rect>
    decreases attrs.len(),
{
    if attrs.len() == 0 {
        Some(fallback_rect())
    } else {
        match rect_from_attrs(attrs.drop_last()) {
            None => None,
            Some(r) => {
                let a = attrs.last();
                let v = signed_value(a.value@);
                let fits = v matches Some(n) && i32::MIN <= n <= i32::MAX;
                if a.name@ == "x"@ {
                    if fits { Some(Rect { x: v.unwrap() as i32, ..r }) } else { None }
                } else if a.name@ == "y"@ {
                    if fits { Some(Rect { y: v.unwrap() as i32, ..r }) } else { None }
                } else if a.name@ == "width"@ {
                    if fits { Some(Rect { width: v.unwrap() as i32, ..r }) } else { None }
                } else if a.name@ == "height"@ {
                    if fits { Some(Rect { height: v.unwrap() as i32, ..r }) } else { None }
                } else {
                    Some(r)
                }
            },
        }
    }
}

impl Rect {
    /// Appends the `rect` element with the four fields as attributes.
    pub fn save(&self, out: &mut Vec<DocEvent>)
        ensures
            final(out)@.len() == old(out)@.len() + 2,
            final(out)@.subrange(0, old(out)@.len() as int) == old(out)@,
            final(out)@[old(out)@.len() as int] matches DocEvent::Start { name, attributes } && name@
                == "rect"@ && attributes@.len() == 4 && attributes@[0].name@ == "x"@
                && attributes@[0].value@ == signed_decimal_of(self.x as int) && attributes@[1].name@
                == "y"@ && attributes@[1].value@ == signed_decimal_of(self.y as int)
                && attributes@[2].name@ == "width"@ && attributes@[2].value@ == signed_decimal_of(
                self.width as int,
            ) && attributes@[3].name@ == "height"@ && attributes@[3].value@ == signed_decimal_of(
                self.height as int,
            ),
            final(out)@[old(out)@.len() as int + 1] matches DocEvent::End { name } && name@ == "rect"@,
    {
        let mut attrs: Vec<Attribute> = Vec::new();
        attrs.push(attr("x", signed_text(self.x as i64)));
        attrs.push(attr("y", signed_text(self.y as i64)));
        attrs.push(attr("width", signed_text(self.width as i64)));
        attrs.push(attr("height", signed_text(self.height as i64)));
        out.push(start("rect", attrs));
        out.push(end("rect"));
    }

    /// The rect that `attributes` describe: fields left out keep the fallback 1024 by 768
    /// rect at the origin, other attributes are ignored, a field that is not an `i32` fails.
    pub fn load(attributes: &Vec<Attribute>) -> (r: Result<Rect, Error>)
        ensures
            r matches Ok(rect) ==> rect_from_attrs(attributes@) == Some(rect),
            r is Err ==> rect_from_attrs(attributes@) is None && r == Err::<Rect, Error>(
                Error::DocumentParse,
            ),
    {
        let mut rect = Rect::new(0, 0, 1024, 768);
        let mut i: usize = 0;
        proof {
            assert(attributes@.subrange(0, 0).len() == 0);
        }
        while i < attributes.len()
            invariant
                i <= attributes@.len(),
                rect_from_attrs(attributes@.subrange(0, i as int)) == Some(rect),
            decreases attributes@.len() - i,
        {
            let a = &attributes[i];
            proof {
                reveal_strlit("x"); reveal_strlit("y"); reveal_strlit("width"); reveal_strlit("height");
                assert(attributes@.subrange(0, i + 1).drop_last() == attributes@.subrange(0, i as int));
                assert(attributes@.subrange(0, i + 1).last() == *a);
            }
            let is_x = text_is(a.name.as_str(), "x");
            let is_y = text_is(a.name.as_str(), "y");
            let is_w = text_is(a.name.as_str(), "width");
            let is_h = text_is(a.name.as_str(), "height");
            if is_x || is_y || is_w || is_h {
                match parse_i32(a.value.as_str()) {
                    Some(v) => {
                        if is_x {
                            rect.x = v;
                        } else if is_y {
                            rect.y = v;
                        } else if is_w {
                            rect.width = v;
                        } else {
                            rect.height = v;
                        }
                    },
                    None => {
                        proof {
                            lemma_rect_attrs_stay_failed(attributes@, i + 1);
                        }
                        return Err(Error::DocumentParse);
                    },
                }
            }
            i += 1;
        }
        assert(attributes@.subrange(0, attributes@.len() as int) == attributes@);
        Ok(rect)
    }
}

/// The attributes that `Rect::save` writes describe the same rect to `Rect::load`.
pub proof fn lemma_rect_round_trip(r: Rect, attrs: Seq<Attribute>)
    requires
        attrs.len() == 4,
        attrs[0].name@ == "x"@ && attrs[0].value@ == signed_decimal_of(r.x as int),
        attrs[1].name@ == "y"@ && attrs[1].value@ == signed_decimal_of(r.y as int),
        attrs[2].name@ == "width"@ && attrs[2].value@ == signed_decimal_of(r.width as int),
        attrs[3].name@ == "height"@ && attrs[3].value@ == signed_decimal_of(r.height as int),
    ensures
        rect_from_attrs(attrs) == Some(r),
{
    reveal_strlit("x");
    reveal_strlit("y");
    reveal_strlit("width");
    reveal_strlit("height");
    lemma_signed_round_trip(r.x as int);
    lemma_signed_round_trip(r.y as int);
    lemma_signed_round_trip(r.width as int);
    lemma_signed_round_trip(r.height as int);
    assert("y"@ != "x"@) by {
        assert("y"@[0] != "x"@[0]);
    }
    assert("width"@.len() != "x"@.len() && "width"@.len() != "y"@.len());
    assert("height"@.len() != "x"@.len() && "height"@.len() != "y"@.len()
        && "height"@.len() != "width"@.len());
    let a1 = attrs.subrange(0, 1);
    let a2 = attrs.subrange(0, 2);
    let a3 = attrs.subrange(0, 3);
    assert(a1.drop_last() == Seq::<Attribute>::empty());
    assert(a2.drop_last() == a1 && a2.last() == attrs[1]);
    assert(a3.drop_last() == a2 && a3.last() == attrs[2]);
    assert(attrs.drop_last() == a3);
    assert(rect_from_attrs(Seq::<Attribute>::empty()) == Some(fallback_rect()));
    assert(rect_from_attrs(a1) == Some(Rect { x: r.x, ..fallback_rect() }));
    assert(rect_from_attrs(a2) == Some(Rect { x: r.x, y: r.y, ..fallback_rect() }));
    assert(rect_from_attrs(a3) == Some(Rect { x: r.x, y: r.y, width: r.width, ..fallback_rect() }));
}

/// Once a prefix of the attributes fails, every longer prefix fails too.
proof fn lemma_rect_attrs_stay_failed(attrs: Seq<Attribute>, i: int)
    requires
        0 <= i <= attrs.len(),
        rect_from_attrs(attrs.subrange(0, i)) is None,
    ensures
        rect_from_attrs(attrs) is None,
    decreases attrs.len() - i,
{
    if i < attrs.len() {
        assert(attrs.subrange(0, i + 1).drop_last() == attrs.subrange(0, i));
        lemma_rect_attrs_stay_failed(attrs, i + 1);
    } else {
        assert(attrs.subrange(0, i) == attrs);
    }
}

proof fn lemma_prefix(a: Seq<DocEvent>, b: Seq<DocEvent>, c: Seq<DocEvent>)
    requires
        a.len() <= b.len() <= c.len(),
        b.subrange(0, a.len() as int) == a,
        c.subrange(0, b.len() as int) == b,
    ensures
        c.subrange(0, a.len() as int) == a,
{
    assert(c.subrange(0, a.len() as int) =~= a) by {
        assert forall|k: int| 0 <= k < a.len() implies c[k] == a[k] by {
            assert(c[k] == c.subrange(0, b.len() as int)[k]);
            assert(b[k] == b.subrange(0, a.len() as int)[k]);
        }
    }
}

/// `i` is the first attribute named `key`.
pub open spec fn first_attr(attrs: Seq<Attribute>, key: Seq<char>, i: int) -> bool {
    0 <= i < attrs.len() && attrs[i].name@ == key && forall|j: int| 0 <= j < i ==> (#[trigger] attrs[j]).name@ != key
}

/// `e` opens element `name`.
pub open spec fn is_start(e: DocEvent, name: Seq<char>) -> bool {
    e matches DocEvent::Start { name: n, .. } && n@ == name
}

/// `e` closes element `name`.
pub open spec fn is_end(e: DocEvent, name: Seq<char>) -> bool {
    e matches DocEvent::End { name: n } && n@ == name
}

/// `e` opens the `dock` element that `Container::save` writes for `d`.
pub open spec fn dock_start(e: DocEvent, d: Dock) -> bool {
    e matches DocEvent::Start { name, attributes } && name@ == "dock"@ && attributes@.len() == 2
        && attributes@[0].name@ == "handle"@ && attributes@[0].value@ == decimal_of(d.handle.0 as nat)
        && attributes@[1].name@ == "name"@ && attributes@[1].value == d.name
}

/// From position `at` on, `ev` holds element `name` with one `dock` element per dock of
/// `docks`, in order.
pub open spec fn container_written(ev: Seq<DocEvent>, at: int, docks: Seq<Dock>, name: Seq<char>) -> bool {
    &&& 0 <= at
    &&& at + 2 * docks.len() + 2 <= ev.len()
    &&& is_start(ev[at], name)
    &&& forall|k: int|
        0 <= k < docks.len() ==> dock_start(#[trigger] ev[at + 1 + 2 * k], docks[k]) && is_end(
            ev[at + 2 + 2 * k],
            "dock"@,
        )
    &&& is_end(ev[at + 2 * docks.len() + 1], name)
}

/// `ev` holds, from `at` on, element `name` whose one attribute `key` spells `v`.
pub open spec fn value_written(ev: Seq<DocEvent>, at: int, name: Seq<char>, key: Seq<char>, v: Seq<char>) -> bool {
    &&& 0 <= at && at + 2 <= ev.len()
    &&& ev[at] matches DocEvent::Start { name: n, attributes: a } && n@ == name && a@.len() == 1
        && a@[0].name@ == key && a@[0].value@ == v
    &&& is_end(ev[at + 1], name)
}

/// The spelling of a child reference.
pub open spec fn child_text(c: Option<SplitHandle>) -> Seq<char> {
    match c {
        None => "None"@,
        Some(h) => decimal_of(h.0 as nat),
    }
}

/// The spelling of a split direction.
pub open spec fn direction_text(d: Direction) -> Seq<char> {
    match d {
        Direction::Vertical => "Vertical"@,
        Direction::Horizontal => "Horizontal"@,
        Direction::Full => "Full"@,
    }
}

/// How many events a container takes in a document: none when it is empty.
pub open spec fn container_size(docks: Seq<Dock>) -> int {
    if docks.len() == 0 {
        0
    } else {
        2 * docks.len() as int + 2
    }
}

/// From `at` on, `ev` holds the `split` element that `Split::save` writes for `s`.
pub open spec fn split_written(ev: Seq<DocEvent>, at: int, s: Split) -> bool {
    let q = at + 7 + container_size(s.left_docks.docks@);
    let e = q + container_size(s.right_docks.docks@);
    &&& 0 <= at && e + 5 <= ev.len()
    &&& is_start(ev[at], "split"@)
    &&& value_written(ev, at + 1, "ratio"@, "v"@, decimal_of(s.ratio as nat))
    &&& value_written(ev, at + 3, "direction"@, "v"@, direction_text(s.direction))
    &&& value_written(ev, at + 5, "handle"@, "v"@, decimal_of(s.handle.0 as nat))
    &&& (s.left_docks.docks@.len() > 0 ==> container_written(ev, at + 7, s.left_docks.docks@, "left_docks"@))
    &&& (s.right_docks.docks@.len() > 0 ==> container_written(ev, q, s.right_docks.docks@, "right_docks"@))
    &&& value_written(ev, e, "left"@, "con"@, child_text(s.left))
    &&& value_written(ev, e + 2, "right"@, "con"@, child_text(s.right))
    &&& is_end(ev[e + 4], "split"@)
}

/// How many events the `split` element of `s` takes.
pub open spec fn split_size(s: Split) -> int {
    12 + container_size(s.left_docks.docks@) + container_size(s.right_docks.docks@)
}

/// Where the `split` element of node `k` starts in a workspace document.
pub open spec fn split_offset(splits: Seq<Split>, k: int) -> int
    decreases k,
{
    if k <= 0 {
        3
    } else {
        split_offset(splits, k - 1) + split_size(splits[k - 1])
    }
}

/// `ev` holds, from `at` on, the `rect` element that `Rect::save` writes for `r`.
pub open spec fn rect_written(ev: Seq<DocEvent>, at: int, r: Rect) -> bool {
    &&& 0 <= at && at + 2 <= ev.len()
    &&& ev[at] matches DocEvent::Start { name, attributes } && name@ == "rect"@ && attributes@.len() == 4
        && attributes@[0].name@ == "x"@ && attributes@[0].value@ == signed_decimal_of(r.x as int)
        && attributes@[1].name@ == "y"@ && attributes@[1].value@ == signed_decimal_of(r.y as int)
        && attributes@[2].name@ == "width"@ && attributes@[2].value@ == signed_decimal_of(r.width as int)
        && attributes@[3].name@ == "height"@ && attributes@[3].value@ == signed_decimal_of(r.height as int)
    &&& is_end(ev[at + 1], "rect"@)
}

/// `ev` is the document that `Workspace::save` writes for a workspace with root rect `rect`
/// and arena `splits`.
pub open spec fn workspace_written(ev: Seq<DocEvent>, rect: Rect, splits: Seq<Split>) -> bool {
    &&& ev.len() == split_offset(splits, splits.len() as int) + 1
    &&& is_start(ev[0], "workspace"@)
    &&& rect_written(ev, 1, rect)
    &&& forall|k: int| 0 <= k < splits.len() ==> split_written(ev, #[trigger] split_offset(splits, k), splits[k])
    &&& is_end(ev[ev.len() - 1], "workspace"@)
}

/// Two readings of a workspace document agree on their first `k` nodes.
proof fn lemma_nodes_agree(ev: Seq<DocEvent>, ra: Rect, a: Seq<Split>, rb: Rect, b: Seq<Split>, k: int)
    requires
        workspace_written(ev, ra, a),
        workspace_written(ev, rb, b),
        0 <= k <= a.len(),
        k <= b.len(),
    ensures
        split_offset(a, k) == split_offset(b, k),
        forall|j: int| 0 <= j < k ==> same_node(#[trigger] a[j], b[j]),
    decreases k,
{
    if k > 0 {
        lemma_nodes_agree(ev, ra, a, rb, b, k - 1);
        let at = split_offset(a, k - 1);
        assert(split_written(ev, split_offset(a, k - 1), a[k - 1]));
        assert(split_written(ev, split_offset(b, k - 1), b[k - 1]));
        lemma_split_written_unique(ev, at, a[k - 1], b[k - 1]);
    }
}

/// A document holds at most one workspace: its rect, and its nodes up to computed rects.
proof fn lemma_workspace_written_unique(
    ev: Seq<DocEvent>,
    ra: Rect,
    a: Seq<Split>,
    rb: Rect,
    b: Seq<Split>,
)
    requires
        workspace_written(ev, ra, a),
        workspace_written(ev, rb, b),
    ensures
        ra == rb,
        a.len() == b.len(),
        forall|k: int| 0 <= k < a.len() ==> same_node(#[trigger] a[k], b[k]),
{
    lemma_signed_round_trip(ra.x as int);
    lemma_signed_round_trip(rb.x as int);
    lemma_signed_round_trip(ra.y as int);
    lemma_signed_round_trip(rb.y as int);
    lemma_signed_round_trip(ra.width as int);
    lemma_signed_round_trip(rb.width as int);
    lemma_signed_round_trip(ra.height as int);
    lemma_signed_round_trip(rb.height as int);
    lemma_names();
    reveal_strlit("workspace");
    reveal_strlit("split");
    let n = if a.len() < b.len() { a.len() as int } else { b.len() as int };
    lemma_nodes_agree(ev, ra, a, rb, b, n);
    if a.len() < b.len() {
        assert(split_written(ev, split_offset(b, n), b[n]));
        assert(is_start(ev[split_offset(b, n)], "split"@));
    } else if b.len() < a.len() {
        assert(split_written(ev, split_offset(a, n), a[n]));
        assert(is_start(ev[split_offset(a, n)], "split"@));
    }
}

/// A node written into a prefix stays written as the document grows.
proof fn lemma_split_grown(b: Seq<DocEvent>, c: Seq<DocEvent>, at: int, t: Split)
    requires
        b.len() <= c.len(),
        c.subrange(0, b.len() as int) == b,
        split_written(b, at, t),
    ensures
        split_written(c, at, t),
{
    lemma_grown(b, c);
    let q = at + 7 + container_size(t.left_docks.docks@);
    let e = q + container_size(t.right_docks.docks@);
    assert(c[at] == b[at]);
    assert(c[e + 4] == b[e + 4]);
    assert(value_written(b, at + 1, "ratio"@, "v"@, decimal_of(t.ratio as nat)));
    assert(value_written(b, at + 3, "direction"@, "v"@, direction_text(t.direction)));
    assert(value_written(b, at + 5, "handle"@, "v"@, decimal_of(t.handle.0 as nat)));
    assert(value_written(b, e, "left"@, "con"@, child_text(t.left)));
    assert(value_written(b, e + 2, "right"@, "con"@, child_text(t.right)));
    if t.left_docks.docks@.len() > 0 {
        assert(container_written(b, at + 7, t.left_docks.docks@, "left_docks"@));
    }
    if t.right_docks.docks@.len() > 0 {
        assert(container_written(b, q, t.right_docks.docks@, "right_docks"@));
    }
}

/// What is written before the end of a prefix stays written as the document grows.
proof fn lemma_grown(b: Seq<DocEvent>, c: Seq<DocEvent>)
    requires
        b.len() <= c.len(),
        c.subrange(0, b.len() as int) == b,
    ensures
        forall|k: int| 0 <= k < b.len() ==> #[trigger] c[k] == b[k],
        forall|at: int, n: Seq<char>, key: Seq<char>, v: Seq<char>|
            #[trigger] value_written(b, at, n, key, v) ==> value_written(c, at, n, key, v),
        forall|at: int, d: Seq<Dock>, n: Seq<char>|
            #[trigger] container_written(b, at, d, n) ==> container_written(c, at, d, n),
{
    assert forall|k: int| 0 <= k < b.len() implies #[trigger] c[k] == b[k] by {
        assert(c[k] == c.subrange(0, b.len() as int)[k]);
    }
    assert forall|at: int, d: Seq<Dock>, n: Seq<char>|
        #[trigger] container_written(b, at, d, n) implies container_written(c, at, d, n) by {
        assert forall|k: int| 0 <= k < d.len() implies dock_start(#[trigger] c[at + 1 + 2 * k], d[k])
            && is_end(c[at + 2 + 2 * k], "dock"@) by {
            assert(dock_start(b[at + 1 + 2 * k], d[k]));
            assert(c[at + 1 + 2 * k] == b[at + 1 + 2 * k]);
            assert(c[at + 2 + 2 * k] == b[at + 2 + 2 * k]);
        }
        assert(c[at] == b[at]);
        assert(c[at + 2 * d.len() + 1] == b[at + 2 * d.len() + 1]);
    }
    assert forall|at: int, n: Seq<char>, key: Seq<char>, v: Seq<char>|
        #[trigger] value_written(b, at, n, key, v) implies value_written(c, at, n, key, v) by {
        assert(c[at] == b[at]);
        assert(c[at + 1] == b[at + 1]);
    }
}

/// The element names and values of a document are told apart by their spelling.
proof fn lemma_names()
    ensures
        "split"@ != "ratio"@, "split"@ != "right"@, "ratio"@ != "right"@,
        "split"@.len() == 5, "ratio"@.len() == 5, "right"@.len() == 5,
        "direction"@.len() == 9, "handle"@.len() == 6, "left_docks"@.len() == 10,
        "right_docks"@.len() == 11, "left"@.len() == 4, "dock"@.len() == 4,
        "left"@ != "dock"@, "left_docks"@ != "dock"@, "right_docks"@ != "dock"@,
        "Vertical"@.len() == 8, "Horizontal"@.len() == 10, "Full"@.len() == 4,
        !is_decimal("None"@),
{
    reveal_strlit("split");
    reveal_strlit("ratio");
    reveal_strlit("right");
    reveal_strlit("direction");
    reveal_strlit("handle");
    reveal_strlit("left_docks");
    reveal_strlit("right_docks");
    reveal_strlit("left");
    reveal_strlit("dock");
    reveal_strlit("Vertical");
    reveal_strlit("Horizontal");
    reveal_strlit("Full");
    reveal_strlit("None");
    assert("split"@[0] != "ratio"@[0]);
    assert("split"@[0] != "right"@[0]);
    assert("ratio"@[1] != "right"@[1]);
    assert("left"@[0] != "dock"@[0]);
    assert(!crate::decimal::is_digit("None"@[0]));
}

/// Two numbers with the same spelling are equal.
proof fn lemma_decimal_injective(a: nat, b: nat)
    requires
        decimal_of(a) == decimal_of(b),
    ensures
        a == b,
{
    lemma_decimal_of(a);
    lemma_decimal_of(b);
}

/// Two child references with the same spelling are equal.
proof fn lemma_child_text_injective(a: Option<SplitHandle>, b: Option<SplitHandle>)
    requires
        child_text(a) == child_text(b),
    ensures
        a == b,
{
    lemma_names();
    match (a, b) {
        (Some(x), Some(y)) => lemma_decimal_injective(x.0 as nat, y.0 as nat),
        (Some(x), None) => lemma_decimal_of(x.0 as nat),
        (None, Some(y)) => lemma_decimal_of(y.0 as nat),
        (None, None) => {},
    }
}

/// Where the reading of a node stands at each step: the position of its next event.
pub open spec fn stage_pos(at: int, t: Split, stage: int) -> int {
    let q = at + 7 + container_size(t.left_docks.docks@);
    let e = q + container_size(t.right_docks.docks@);
    if stage <= 6 {
        at + 1 + stage
    } else if stage == 7 {
        q
    } else {
        e + (stage - 8)
    }
}

/// The fields of `s` that reading `t` has filled in by step `stage`.
pub open spec fn loaded(s: Split, t: Split, stage: int) -> bool {
    &&& (stage > 0 ==> s.ratio == t.ratio)
    &&& (stage > 2 ==> s.direction == t.direction)
    &&& (stage > 4 ==> s.handle == t.handle)
    &&& (stage > 6 ==> s.left_docks.docks@ == t.left_docks.docks@)
    &&& (stage <= 6 ==> s.left_docks.docks@.len() == 0)
    &&& (stage > 7 ==> s.right_docks.docks@ == t.right_docks.docks@)
    &&& (stage <= 7 ==> s.right_docks.docks@.len() == 0)
    &&& (stage > 8 ==> s.left == t.left)
    &&& (stage > 10 ==> s.right == t.right)
}

/// The step after the handle element, skipping the containers that are not written.
pub open spec fn after_handle(t: Split) -> int {
    if t.left_docks.docks@.len() > 0 {
        6
    } else if t.right_docks.docks@.len() > 0 {
        7
    } else {
        8
    }
}

/// A document holds at most one reading of a node at a given position.
proof fn lemma_split_written_unique(ev: Seq<DocEvent>, at: int, a: Split, b: Split)
    requires
        split_written(ev, at, a),
        split_written(ev, at, b),
    ensures
        a.ratio == b.ratio,
        a.direction == b.direction,
        a.handle == b.handle,
        a.left_docks.docks@ == b.left_docks.docks@,
        a.right_docks.docks@ == b.right_docks.docks@,
        a.left == b.left,
        a.right == b.right,
{
    lemma_names();
    lemma_decimal_injective(a.ratio as nat, b.ratio as nat);
    lemma_decimal_injective(a.handle.0 as nat, b.handle.0 as nat);
    assert(direction_text(a.direction) == direction_text(b.direction));
    assert(a.direction == b.direction) by {
        if a.direction != b.direction {
            assert(direction_text(a.direction).len() != direction_text(b.direction).len());
        }
    }
    let la = a.left_docks.docks@;
    let lb = b.left_docks.docks@;
    if la.len() > 0 && lb.len() > 0 {
        lemma_container_written_unique(ev, at + 7, la, lb, "left_docks"@);
    } else if la.len() > 0 {
        assert(is_start(ev[at + 7], "left_docks"@));
        if b.right_docks.docks@.len() > 0 {
            assert(is_start(ev[at + 7], "right_docks"@));
        } else {
            assert(value_written(ev, at + 7, "left"@, "con"@, child_text(b.left)));
        }
    } else if lb.len() > 0 {
        assert(is_start(ev[at + 7], "left_docks"@));
        if a.right_docks.docks@.len() > 0 {
            assert(is_start(ev[at + 7], "right_docks"@));
        } else {
            assert(value_written(ev, at + 7, "left"@, "con"@, child_text(a.left)));
        }
    } else {
        assert(la =~= lb);
    }
    let q = at + 7 + container_size(la);
    let ra = a.right_docks.docks@;
    let rb = b.right_docks.docks@;
    if ra.len() > 0 && rb.len() > 0 {
        lemma_container_written_unique(ev, q, ra, rb, "right_docks"@);
    } else if ra.len() > 0 {
        assert(is_start(ev[q], "right_docks"@));
        assert(value_written(ev, q, "left"@, "con"@, child_text(b.left)));
    } else if rb.len() > 0 {
        assert(is_start(ev[q], "right_docks"@));
        assert(value_written(ev, q, "left"@, "con"@, child_text(a.left)));
    } else {
        assert(ra =~= rb);
    }
    let e = q + container_size(ra);
    assert(value_written(ev, e, "left"@, "con"@, child_text(a.left)));
    assert(value_written(ev, e, "left"@, "con"@, child_text(b.left)));
    lemma_child_text_injective(a.left, b.left);
    assert(value_written(ev, e + 2, "right"@, "con"@, child_text(a.right)));
    assert(value_written(ev, e + 2, "right"@, "con"@, child_text(b.right)));
    lemma_child_text_injective(a.right, b.right);
}

/// A document holds at most one reading of a container at a given position.
proof fn lemma_container_written_unique(
    ev: Seq<DocEvent>,
    at: int,
    a: Seq<Dock>,
    b: Seq<Dock>,
    name: Seq<char>,
)
    requires
        container_written(ev, at, a, name),
        container_written(ev, at, b, name),
    ensures
        a == b,
{
    if a.len() < b.len() {
        let k = a.len() as int;
        assert(dock_start(ev[at + 1 + 2 * k], b[k]));
    } else if b.len() < a.len() {
        let k = b.len() as int;
        assert(dock_start(ev[at + 1 + 2 * k], a[k]));
    } else {
        assert forall|k: int| 0 <= k < a.len() implies a[k] == b[k] by {
            assert(dock_start(ev[at + 1 + 2 * k], a[k]));
            assert(dock_start(ev[at + 1 + 2 * k], b[k]));
            lemma_decimal_of(a[k].handle.0 as nat);
            lemma_decimal_of(b[k].handle.0 as nat);
        }
        assert(a =~= b);
    }
}

/// The first attribute named `key`.
fn find_attr(attrs: &Vec<Attribute>, key: &str) -> (r: Option<usize>)
    ensures
        r matches Some(i) ==> i < attrs@.len() && attrs@[i as int].name@ == key@ && forall|j: int|
            0 <= j < i ==> (#[trigger] attrs@[j]).name@ != key@,
        r is None ==> forall|j: int| 0 <= j < attrs@.len() ==> (#[trigger] attrs@[j]).name@ != key@,
{
    let mut i: usize = 0;
    while i < attrs.len()
        invariant
            i <= attrs@.len(),
            forall|j: int| 0 <= j < i ==> (#[trigger] attrs@[j]).name@ != key@,
        decreases attrs@.len() - i,
    {
        if text_is(attrs[i].name.as_str(), key) {
            return Some(i);
        }
        i += 1;
    }
    None
}

/// The position of the first attribute named `key`, if any.
pub open spec fn attr_at(attrs: Seq<Attribute>, key: Seq<char>) -> Option<int> {
    if exists|i: int| first_attr(attrs, key, i) {
        Some(choose|i: int| first_attr(attrs, key, i))
    } else {
        None
    }
}

proof fn lemma_attr_at(attrs: Seq<Attribute>, key: Seq<char>)
    ensures
        attr_at(attrs, key) matches Some(i) ==> first_attr(attrs, key, i),
        attr_at(attrs, key) is None ==> forall|j: int| 0 <= j < attrs.len() ==> (#[trigger] attrs[j]).name@ != key,
        forall|i: int| #[trigger] first_attr(attrs, key, i) ==> attr_at(attrs, key) == Some(i),
{
    assert forall|i: int| #[trigger] first_attr(attrs, key, i) implies attr_at(attrs, key) == Some(i) by {
        let k = choose|k: int| first_attr(attrs, key, k);
        if k < i {
            assert(attrs[k].name@ != key);
        } else if i < k {
            assert(attrs[i].name@ != key);
        }
    }
    if attr_at(attrs, key) is None {
        assert forall|j: int| 0 <= j < attrs.len() implies (#[trigger] attrs[j]).name@ != key by {
            if attrs[j].name@ == key {
                lemma_first_attr_exists(attrs, key, j);
            }
        }
    }
}

proof fn lemma_first_attr_exists(attrs: Seq<Attribute>, key: Seq<char>, j: int)
    requires
        0 <= j < attrs.len(),
        attrs[j].name@ == key,
    ensures
        exists|i: int| first_attr(attrs, key, i),
    decreases j,
{
    if exists|k: int| 0 <= k < j && (#[trigger] attrs[k]).name@ == key {
        let k = choose|k: int| 0 <= k < j && (#[trigger] attrs[k]).name@ == key;
        lemma_first_attr_exists(attrs, key, k);
    } else {
        assert(first_attr(attrs, key, j));
    }
}

/// The number in attribute `key`: `Some(None)` where there is none, `None` where its value
/// is not a decimal `u64`.
pub open spec fn unsigned_attr_read(attrs: Seq<Attribute>, key: Seq<char>) -> Option<Option<u64>> {
    match attr_at(attrs, key) {
        None => Some(None),
        Some(i) => if is_decimal(unsigned_digits(attrs[i].value@)) && decimal_value(unsigned_digits(attrs[i].value@)) <= u64::MAX {
            Some(Some(decimal_value(unsigned_digits(attrs[i].value@)) as u64))
        } else {
            None
        },
    }
}

/// The handle of a `dock` element: 0 where it has none, `None` where it is malformed.
pub open spec fn dock_handle_read(attrs: Seq<Attribute>) -> Option<u64> {
    match unsigned_attr_read(attrs, "handle"@) {
        None => None,
        Some(None) => Some(0),
        Some(Some(h)) => Some(h),
    }
}

/// The name of a `dock` element: empty where it has none.
pub open spec fn dock_name_read(attrs: Seq<Attribute>) -> Seq<char> {
    match attr_at(attrs, "name"@) {
        None => Seq::empty(),
        Some(i) => attrs[i].value@,
    }
}

/// A dock as its handle and the characters of its name.
pub open spec fn dock_pairs(docks: Seq<Dock>) -> Seq<(u64, Seq<char>)> {
    docks.map_values(|d: Dock| (d.handle.0, d.name@))
}

/// What reading `dock` elements from position `i` gives: the docks, as handle and name,
/// and the position after the end of element `side` (or the end of the document); `None`
/// where a dock handle is malformed. Other elements are skipped.
pub open spec fn docks_read(ev: Seq<DocEvent>, i: int, side: Seq<char>) -> Option<(Seq<(u64, Seq<char>)>, int)>
    decreases ev.len() - i,
{
    if i < 0 || i >= ev.len() {
        Some((Seq::empty(), i))
    } else {
        match ev[i] {
            DocEvent::Start { name, attributes } => if name@ == "dock"@ {
                match dock_handle_read(attributes@) {
                    None => None,
                    Some(h) => match docks_read(ev, i + 1, side) {
                        None => None,
                        Some(r) => Some((seq![(h, dock_name_read(attributes@))] + r.0, r.1)),
                    },
                }
            } else {
                docks_read(ev, i + 1, side)
            },
            DocEvent::End { name } => if name@ == side {
                Some((Seq::empty(), i + 1))
            } else {
                docks_read(ev, i + 1, side)
            },
        }
    }
}

/// `prefix` read before what reading from a later position gives.
pub open spec fn after(prefix: Seq<(u64, Seq<char>)>, rest: Option<(Seq<(u64, Seq<char>)>, int)>) -> Option<(Seq<(u64, Seq<char>)>, int)> {
    match rest {
        None => None,
        Some(r) => Some((prefix + r.0, r.1)),
    }
}

/// What a node reads as: ratio, direction, handle, the docks of its two sides as handle and
/// name, and its two child references.
pub type NodeRead = (u32, Direction, u64, Seq<(u64, Seq<char>)>, Seq<(u64, Seq<char>)>, Option<SplitHandle>, Option<SplitHandle>);

/// What node `s` reads as.
pub open spec fn node_read(s: Split) -> NodeRead {
    (s.ratio, s.direction, s.handle.0, dock_pairs(s.left_docks.docks@), dock_pairs(s.right_docks.docks@), s.left, s.right)
}

/// What a node starts as before any of its elements is read.
pub open spec fn node_start() -> NodeRead {
    (crate::split::RATIO_HALF, Direction::Full, 0, Seq::empty(), Seq::empty(), None, None)
}

/// The child reference in attribute `con`: no child for `None` or a missing attribute,
/// `None` where the value is neither that nor a decimal handle.
pub open spec fn child_read(attrs: Seq<Attribute>) -> Option<Option<SplitHandle>> {
    match attr_at(attrs, "con"@) {
        None => Some(None),
        Some(i) => if attrs[i].value@ == "None"@ {
            Some(None)
        } else if is_decimal(unsigned_digits(attrs[i].value@)) && decimal_value(unsigned_digits(attrs[i].value@)) <= u64::MAX {
            Some(Some(SplitHandle(decimal_value(unsigned_digits(attrs[i].value@)) as u64)))
        } else {
            None
        },
    }
}

/// The direction in attribute `v`: `Vertical`, `Horizontal`, anything else `Full`; `d`
/// where the attribute is missing.
pub open spec fn direction_read(attrs: Seq<Attribute>, d: Direction) -> Direction {
    match attr_at(attrs, "v"@) {
        None => d,
        Some(i) => if attrs[i].value@ == "Vertical"@ {
            Direction::Vertical
        } else if attrs[i].value@ == "Horizontal"@ {
            Direction::Horizontal
        } else {
            Direction::Full
        },
    }
}

/// What reading the elements of a node from position `i` on gives, starting from `acc`:
/// the node and the position after the end of its `split` element (or the end of the
/// document); `None` where a number is malformed or a ratio exceeds `RATIO_ONE`. Unknown
/// elements are skipped.
pub open spec fn node_read_from(ev: Seq<DocEvent>, i: int, acc: NodeRead) -> Option<(NodeRead, int)>
    decreases ev.len() - i,
{
    if i < 0 || i >= ev.len() {
        Some((acc, i))
    } else {
        match ev[i] {
            DocEvent::Start { name, attributes } => {
                let a = attributes@;
                if name@ == "left_docks"@ {
                    match docks_read(ev, i + 1, "left_docks"@) {
                        None => None,
                        Some(r) => if i < r.1 <= ev.len() {
                            node_read_from(ev, r.1, (acc.0, acc.1, acc.2, r.0, acc.4, acc.5, acc.6))
                        } else {
                            None
                        },
                    }
                } else if name@ == "right_docks"@ {
                    match docks_read(ev, i + 1, "right_docks"@) {
                        None => None,
                        Some(r) => if i < r.1 <= ev.len() {
                            node_read_from(ev, r.1, (acc.0, acc.1, acc.2, acc.3, r.0, acc.5, acc.6))
                        } else {
                            None
                        },
                    }
                } else if name@ == "left"@ {
                    match child_read(a) {
                        None => None,
                        Some(c) => node_read_from(ev, i + 1, (acc.0, acc.1, acc.2, acc.3, acc.4, c, acc.6)),
                    }
                } else if name@ == "right"@ {
                    match child_read(a) {
                        None => None,
                        Some(c) => node_read_from(ev, i + 1, (acc.0, acc.1, acc.2, acc.3, acc.4, acc.5, c)),
                    }
                } else if name@ == "ratio"@ {
                    match unsigned_attr_read(a, "v"@) {
                        Some(Some(v)) => if v <= RATIO_ONE {
                            node_read_from(ev, i + 1, (v as u32, acc.1, acc.2, acc.3, acc.4, acc.5, acc.6))
                        } else {
                            None
                        },
                        _ => None,
                    }
                } else if name@ == "handle"@ {
                    match unsigned_attr_read(a, "v"@) {
                        Some(Some(v)) => node_read_from(ev, i + 1, (acc.0, acc.1, v, acc.3, acc.4, acc.5, acc.6)),
                        _ => None,
                    }
                } else if name@ == "direction"@ {
                    node_read_from(ev, i + 1, (acc.0, direction_read(a, acc.1), acc.2, acc.3, acc.4, acc.5, acc.6))
                } else {
                    node_read_from(ev, i + 1, acc)
                }
            },
            DocEvent::End { name } => if name@ == "split"@ {
                Some((acc, i + 1))
            } else {
                node_read_from(ev, i + 1, acc)
            },
        }
    }
}

/// What the nodes of an arena read as.
pub open spec fn node_reads(s: Seq<Split>) -> Seq<NodeRead> {
    s.map_values(|n: Split| node_read(n))
}

/// What reading a workspace document from position `i` on gives, starting from root rect
/// `rect` and nodes `nodes`: each `rect` element replaces the root rect, each `split`
/// element appends a node, up to the end of the `workspace` element (or of the document);
/// `None` where a number is malformed. Unknown elements are skipped.
pub open spec fn workspace_read(ev: Seq<DocEvent>, i: int, rect: Rect, nodes: Seq<NodeRead>) -> Option<(Rect, Seq<NodeRead>)>
    decreases ev.len() - i,
{
    if i < 0 || i >= ev.len() {
        Some((rect, nodes))
    } else {
        match ev[i] {
            DocEvent::Start { name, attributes } => if name@ == "rect"@ {
                match rect_from_attrs(attributes@) {
                    None => None,
                    Some(r) => workspace_read(ev, i + 1, r, nodes),
                }
            } else if name@ == "split"@ {
                match node_read_from(ev, i + 1, node_start()) {
                    None => None,
                    Some(x) => if i < x.1 <= ev.len() {
                        workspace_read(ev, x.1, rect, nodes.push(x.0))
                    } else {
                        None
                    },
                }
            } else {
                workspace_read(ev, i + 1, rect, nodes)
            },
            DocEvent::End { name } => if name@ == "workspace"@ {
                Some((rect, nodes))
            } else {
                workspace_read(ev, i + 1, rect, nodes)
            },
        }
    }
}

/// Whether some node read has handle `h`.
pub open spec fn read_has(nodes: Seq<NodeRead>, h: SplitHandle) -> bool {
    exists|i: int| 0 <= i < nodes.len() && (#[trigger] nodes[i]).2 == h.0
}

/// The nodes read form an arena: the root is there, every ratio is a fraction and every
/// child reference names a node read.
pub open spec fn reads_ok(nodes: Seq<NodeRead>) -> bool {
    &&& read_has(nodes, SplitHandle(0))
    &&& forall|i: int|
        0 <= i < nodes.len() ==> {
            &&& (#[trigger] nodes[i]).0 <= RATIO_ONE
            &&& (nodes[i].5 matches Some(h) ==> read_has(nodes, h))
            &&& (nodes[i].6 matches Some(h) ==> read_has(nodes, h))
        }
}

proof fn lemma_reads_ok(s: Seq<Split>)
    ensures
        reads_ok(node_reads(s)) == (arena_ok(s) && has_split(s, SplitHandle(0))),
{
    let n = node_reads(s);
    assert forall|h: SplitHandle| #[trigger] read_has(n, h) == has_split(s, h) by {
        if read_has(n, h) {
            let i = choose|i: int| 0 <= i < n.len() && (#[trigger] n[i]).2 == h.0;
            assert(s[i].handle == h);
        }
        if has_split(s, h) {
            let i = choose|i: int| 0 <= i < s.len() && (#[trigger] s[i]).handle == h;
            assert(n[i].2 == h.0);
        }
    }
    if reads_ok(n) {
        assert forall|i: int| 0 <= i < s.len() implies {
            &&& (#[trigger] s[i]).ratio <= RATIO_ONE
            &&& (s[i].left matches Some(h) ==> has_split(s, h))
            &&& (s[i].right matches Some(h) ==> has_split(s, h))
        } by {
            assert(n[i] == node_read(s[i]));
        }
    }
    if arena_ok(s) && has_split(s, SplitHandle(0)) {
        assert forall|i: int| 0 <= i < n.len() implies {
            &&& (#[trigger] n[i]).0 <= RATIO_ONE
            &&& (n[i].5 matches Some(h) ==> read_has(n, h))
            &&& (n[i].6 matches Some(h) ==> read_has(n, h))
        } by {
            assert(n[i] == node_read(s[i]));
        }
    }
}

/// The number in attribute `key`: `Ok(None)` where there is no such attribute, an error
/// where its value is not a decimal `u64`.
fn unsigned_attr(attrs: &Vec<Attribute>, key: &str) -> (r: Result<Option<u64>, Error>)
    ensures
        r is Err ==> r == Err::<Option<u64>, Error>(Error::DocumentParse),
        r matches Ok(v) ==> unsigned_attr_read(attrs@, key@) == Some(v),
        r is Err <==> unsigned_attr_read(attrs@, key@) is None,
        forall|i: int|
            #[trigger] first_attr(attrs@, key@, i) && is_decimal(attrs@[i].value@) && decimal_value(
                attrs@[i].value@,
            ) <= u64::MAX ==> r == Ok::<Option<u64>, Error>(Some(decimal_value(attrs@[i].value@) as u64)),
{
    proof {
        lemma_attr_at(attrs@, key@);
    }
    match find_attr(attrs, key) {
        None => {
            proof {
                if let Some(i) = attr_at(attrs@, key@) {
                    assert(attrs@[i].name@ == key@);
                }
            }
            Ok(None)
        },
        Some(i) => match parse_unsigned(attrs[i].value.as_str()) {
            Some(v) => Ok(Some(v)),
            None => Err(Error::DocumentParse),
        },
    }
}

impl Container {
    /// Appends the element `name` with one `dock` element per dock; an empty container
    /// appends nothing.
    pub fn save(&self, name: &str, out: &mut Vec<DocEvent>)
        ensures
            final(out)@.len() == old(out)@.len() + if self.docks@.len() == 0 {
                0
            } else {
                2 * self.docks@.len() + 2
            },
            final(out)@.subrange(0, old(out)@.len() as int) == old(out)@,
            self.docks@.len() > 0 ==> container_written(
                final(out)@,
                old(out)@.len() as int,
                self.docks@,
                name@,
            ),
    {
        let ghost o0 = out@;
        if self.docks.len() == 0 {
            assert(out@.subrange(0, o0.len() as int) == o0);
            return;
        }
        out.push(start(name, Vec::new()));
        let mut i: usize = 0;
        while i < self.docks.len()
            invariant
                i <= self.docks@.len(),
                out@.len() == o0.len() + 1 + 2 * i,
                out@.subrange(0, o0.len() as int) == o0,
                is_start(out@[o0.len() as int], name@),
                forall|k: int|
                    0 <= k < i ==> dock_start(#[trigger] out@[o0.len() + 1 + 2 * k], self.docks@[k])
                        && is_end(out@[o0.len() + 2 + 2 * k], "dock"@),
            decreases self.docks@.len() - i,
        {
            let ghost before = out@;
            let mut attrs: Vec<Attribute> = Vec::new();
            attrs.push(attr("handle", unsigned_text(self.docks[i].handle.0)));
            attrs.push(attr("name", self.docks[i].name.clone()));
            out.push(start("dock", attrs));
            out.push(end("dock"));
            proof {
                reveal_strlit("dock");
                assert(out@.subrange(0, o0.len() as int) == before.subrange(0, o0.len() as int));
                assert(dock_start(out@[o0.len() + 1 + 2 * i], self.docks@[i as int]));
                assert forall|k: int|
                    0 <= k < i + 1 implies dock_start(#[trigger] out@[o0.len() + 1 + 2 * k], self.docks@[k])
                        && is_end(out@[o0.len() + 2 + 2 * k], "dock"@) by {
                    if k < i {
                        assert(out@[o0.len() + 1 + 2 * k] == before[o0.len() + 1 + 2 * k]);
                        assert(out@[o0.len() + 2 + 2 * k] == before[o0.len() + 2 + 2 * k]);
                    }
                }
            }
            i += 1;
        }
        let ghost before = out@;
        out.push(end(name));
        assert(out@.subrange(0, o0.len() as int) == before.subrange(0, o0.len() as int));
    }

    /// Reads `dock` elements from position `pos` up to the end of element `side_name`,
    /// returning them with the position after it.
    pub fn load(events: &Vec<DocEvent>, pos: usize, side_name: &str) -> (r: Result<(Container, usize), Error>)
        ensures
            r matches Ok((c, p)) ==> pos <= p <= events@.len() || (p == pos && pos > events@.len()),
            r matches Ok((c, p)) ==> c.rect == Rect::new(0, 0, 0, 0),
            r is Err ==> r == Err::<(Container, usize), Error>(Error::DocumentParse),
            r is Err <==> docks_read(events@, pos as int, side_name@) is None,
            r matches Ok((c, p)) ==> docks_read(events@, pos as int, side_name@) == Some(
                (dock_pairs(c.docks@), p as int),
            ),
            forall|d: Seq<Dock>|
                #[trigger] container_written(events@, pos - 1, d, side_name@) && side_name@ != "dock"@
                    ==> (r matches Ok((c, p)) && c.docks@ == d && p == pos + 2 * d.len() + 1),
    {
        let ghost w = exists|d: Seq<Dock>|
            #[trigger] container_written(events@, pos - 1, d, side_name@) && side_name@ != "dock"@;
        let ghost dd = if w {
            choose|d: Seq<Dock>|
                #[trigger] container_written(events@, pos - 1, d, side_name@) && side_name@ != "dock"@
        } else {
            Seq::<Dock>::empty()
        };
        let ghost mut mid = false;
        let mut container = Container::new();
        let mut i: usize = pos;
        proof {
            reveal_strlit("dock");
            reveal_strlit("handle");
            reveal_strlit("name");
            assert(container.docks@ == dd.subrange(0, 0));
            assert(dock_pairs(container.docks@) =~= Seq::<(u64, Seq<char>)>::empty());
            if let Some(r) = docks_read(events@, pos as int, side_name@) {
                assert(Seq::<(u64, Seq<char>)>::empty() + r.0 =~= r.0);
            }
        }
        while i < events.len()
            invariant
                pos <= i,
                i <= events@.len() || i == pos,
                container.rect == Rect::new(0, 0, 0, 0),
                docks_read(events@, pos as int, side_name@) == after(
                    dock_pairs(container.docks@),
                    docks_read(events@, i as int, side_name@),
                ),
                w == exists|d: Seq<Dock>|
                    #[trigger] container_written(events@, pos - 1, d, side_name@) && side_name@ != "dock"@,
                w ==> container_written(events@, pos - 1, dd, side_name@) && side_name@ != "dock"@,
                w ==> container.docks@.len() <= dd.len() && container.docks@ == dd.subrange(
                    0,
                    container.docks@.len() as int,
                ) && i == pos + 2 * container.docks@.len() - (if mid { 1int } else { 0int }),
                w && mid ==> container.docks@.len() >= 1,
            decreases events@.len() - i,
        {
            let ghost n0 = container.docks@.len();
            match &events[i] {
                DocEvent::Start { name, attributes } => {
                    proof {
                        reveal_strlit("dock");
                        reveal_strlit("handle");
                        reveal_strlit("name");
                        assert(events@[i as int] matches DocEvent::Start { .. });
                        if w {
                            if mid {
                                assert(dock_start(events@[pos - 1 + 1 + 2 * (n0 - 1)], dd[n0 - 1]));
                                assert(is_end(events@[pos - 1 + 2 + 2 * (n0 - 1)], "dock"@));
                            }
                            assert(!mid);
                            if n0 == dd.len() {
                                assert(is_end(events@[pos - 1 + 2 * dd.len() + 1], side_name@));
                            }
                            assert(n0 < dd.len());
                            assert(dock_start(events@[pos - 1 + 1 + 2 * n0], dd[n0 as int]));
                            assert(first_attr(attributes@, "handle"@, 0));
                            lemma_decimal_of(dd[n0 as int].handle.0 as nat);
                            assert("handle"@.len() != "name"@.len());
                            assert(attributes@[0].name@ != "name"@);
                        }
                    }
                    if text_is(name.as_str(), "dock") {
                        let mut dock = Dock::new(DockHandle(0));
                        let ghost pairs0 = dock_pairs(container.docks@);
                        match unsigned_attr(attributes, "handle") {
                            Err(e) => return Err(e),
                            Ok(Some(h)) => dock.handle = DockHandle(h),
                            Ok(None) => {},
                        }
                        proof {
                            lemma_attr_at(attributes@, "name"@);
                        }
                        if let Some(k) = find_attr(attributes, "name") {
                            dock.name = attributes[k].value.clone();
                        } else {
                            proof {
                                if let Some(j) = attr_at(attributes@, "name"@) {
                                    assert(attributes@[j].name@ == "name"@);
                                }
                            }
                        }
                        proof {
                            assert(dock.handle.0 == dock_handle_read(attributes@).unwrap());
                            assert(dock.name@ == dock_name_read(attributes@));
                        }
                        container.docks.push(dock);
                        proof {
                            let x = (dock.handle.0, dock.name@);
                            assert(dock_pairs(container.docks@) =~= pairs0.push(x));
                            if let Some(r) = docks_read(events@, i + 1, side_name@) {
                                assert(pairs0 + (seq![x] + r.0) =~= pairs0.push(x) + r.0);
                            }
                        }
                        proof {
                            if w {
                                assert(container.docks@ =~= dd.subrange(0, n0 as int + 1));
                                mid = true;
                            }
                        }
                    }
                },
                DocEvent::End { name } => {
                    proof {
                        reveal_strlit("dock");
                        assert(events@[i as int] matches DocEvent::End { .. });
                        if w && mid {
                            assert(dock_start(events@[pos - 1 + 1 + 2 * (n0 - 1)], dd[n0 - 1]));
                            assert(is_end(events@[pos - 1 + 2 + 2 * (n0 - 1)], "dock"@));
                        }
                        if w && !mid && n0 < dd.len() {
                            assert(dock_start(events@[pos - 1 + 1 + 2 * n0], dd[n0 as int]));
                        }
                        if w && !mid && n0 == dd.len() {
                            assert(is_end(events@[pos - 1 + 2 * dd.len() + 1], side_name@));
                        }
                    }
                    if text_is(name.as_str(), side_name) {
                        proof {
                            if w {
                                assert(!mid);
                                assert(container.docks@ =~= dd);
                            }
                            assert forall|d: Seq<Dock>|
                                #[trigger] container_written(events@, pos - 1, d, side_name@) && side_name@
                                    != "dock"@ implies container.docks@ == d && i + 1 == pos + 2 * d.len() + 1 by {
                                lemma_container_written_unique(events@, pos - 1, d, dd, side_name@);
                            }
                        }
                        proof {
                            assert(dock_pairs(container.docks@) + Seq::<(u64, Seq<char>)>::empty()
                                =~= dock_pairs(container.docks@));
                        }
                        return Ok((container, i + 1));
                    }
                    proof {
                        if w {
                            mid = false;
                        }
                    }
                },
            }
            i += 1;
        }
        proof {
            if w {
                assert(i < events@.len());
            }
        }
        proof {
            assert(dock_pairs(container.docks@) + Seq::<(u64, Seq<char>)>::empty() =~= dock_pairs(container.docks@));
        }
        Ok((container, i))
    }
}

impl Split {
    fn write_child(child: Option<SplitHandle>, name: &str, out: &mut Vec<DocEvent>)
        ensures
            final(out)@.len() == old(out)@.len() + 2,
            final(out)@.subrange(0, old(out)@.len() as int) == old(out)@,
            value_written(final(out)@, old(out)@.len() as int, name@, "con"@, child_text(child)),
    {
        let mut attrs: Vec<Attribute> = Vec::new();
        match child {
            None => attrs.push(attr("con", owned("None"))),
            Some(h) => attrs.push(attr("con", unsigned_text(h.0))),
        }
        proof {
            reveal_strlit("None");
        }
        let ghost o0 = out@;
        out.push(start(name, attrs));
        out.push(end(name));
        assert(out@.subrange(0, o0.len() as int) == o0);
    }

    fn write_value(value: String, name: &str, out: &mut Vec<DocEvent>)
        ensures
            final(out)@.len() == old(out)@.len() + 2,
            final(out)@.subrange(0, old(out)@.len() as int) == old(out)@,
            value_written(final(out)@, old(out)@.len() as int, name@, "v"@, value@),
    {
        let mut attrs: Vec<Attribute> = Vec::new();
        attrs.push(attr("v", value));
        let ghost o0 = out@;
        out.push(start(name, attrs));
        out.push(end(name));
        assert(out@.subrange(0, o0.len() as int) == o0);
    }

    /// Appends the `split` element: ratio, direction, handle, the non-empty containers and
    /// the two child references.
    pub fn save(&self, out: &mut Vec<DocEvent>)
        ensures
            final(out)@.len() > old(out)@.len(),
            final(out)@.subrange(0, old(out)@.len() as int) == old(out)@,
            split_written(final(out)@, old(out)@.len() as int, *self),
            final(out)@.len() == old(out)@.len() + split_size(*self),
    {
        let ghost o0 = out@;
        out.push(start("split", Vec::new()));
        let ghost o1 = out@;
        Self::write_value(unsigned_text(self.ratio as u64), "ratio", out);
        let ghost o2 = out@;
        let dir = match self.direction {
            Direction::Vertical => owned("Vertical"),
            Direction::Horizontal => owned("Horizontal"),
            Direction::Full => owned("Full"),
        };
        assert(dir@ == direction_text(self.direction));
        Self::write_value(dir, "direction", out);
        let ghost o3 = out@;
        Self::write_value(unsigned_text(self.handle.0), "handle", out);
        let ghost o4 = out@;
        self.left_docks.save("left_docks", out);
        let ghost o5 = out@;
        self.right_docks.save("right_docks", out);
        let ghost o6 = out@;
        Self::write_child(self.left, "left", out);
        let ghost o7 = out@;
        Self::write_child(self.right, "right", out);
        let ghost o8 = out@;
        out.push(end("split"));
        proof {
            // each snapshot is a prefix of the next, hence of the final document
            assert(o1.subrange(0, o0.len() as int) == o0);
            assert(out@.subrange(0, o8.len() as int) == o8);
            lemma_prefix(o7, o8, out@);
            lemma_prefix(o6, o7, out@);
            lemma_prefix(o5, o6, out@);
            lemma_prefix(o4, o5, out@);
            lemma_prefix(o3, o4, out@);
            lemma_prefix(o2, o3, out@);
            lemma_prefix(o1, o2, out@);
            lemma_prefix(o0, o1, out@);
            lemma_grown(o2, out@);
            lemma_grown(o3, out@);
            lemma_grown(o4, out@);
            lemma_grown(o5, out@);
            lemma_grown(o6, out@);
            lemma_grown(o7, out@);
            lemma_grown(o8, out@);
            lemma_grown(o1, out@);
            assert(out@[o0.len() as int] == o1[o0.len() as int]);
            reveal_strlit("split");
        }
    }

    /// The child reference in attribute `con`: `None` for the text `None` or a missing
    /// attribute, an error where the value is no split handle.
    pub fn parse_child(attributes: &Vec<Attribute>) -> (r: Result<Option<SplitHandle>, Error>)
        ensures
            r matches Ok(c) ==> child_read(attributes@) == Some(c),
            r is Err <==> child_read(attributes@) is None,
            r is Err ==> r == Err::<Option<SplitHandle>, Error>(Error::DocumentParse),
            (forall|j: int| 0 <= j < attributes@.len() ==> (#[trigger] attributes@[j]).name@ != "con"@) ==> r
                == Ok::<Option<SplitHandle>, Error>(None),
            forall|i: int|
                #[trigger] first_attr(attributes@, "con"@, i) ==> r == (if attributes@[i].value@ == "None"@ {
                    Ok::<Option<SplitHandle>, Error>(None)
                } else if is_decimal(unsigned_digits(attributes@[i].value@)) && decimal_value(unsigned_digits(attributes@[i].value@)) <= u64::MAX {
                    Ok(Some(SplitHandle(decimal_value(unsigned_digits(attributes@[i].value@)) as u64)))
                } else {
                    Err(Error::DocumentParse)
                }),
            forall|c: Option<SplitHandle>, i: int|
                #[trigger] first_attr(attributes@, "con"@, i) && attributes@[i].value@ == #[trigger] child_text(c)
                    ==> r == Ok::<Option<SplitHandle>, Error>(c),
    {
        proof {
            lemma_names();
            reveal_strlit("None");
            lemma_attr_at(attributes@, "con"@);
            if let Some(i) = attr_at(attributes@, "con"@) {
                assert(attributes@[i].name@ == "con"@);
            }
            assert forall|c: Option<SplitHandle>| #[trigger] child_text(c) == "None"@ implies c is None by {
                if let Some(h) = c {
                    lemma_decimal_of(h.0 as nat);
                }
            }
            assert forall|c: Option<SplitHandle>| c is Some implies is_decimal(#[trigger] child_text(c))
                && decimal_value(child_text(c)) == c.unwrap().0 by {
                lemma_decimal_of(c.unwrap().0 as nat);
            }
        }
        match find_attr(attributes, "con") {
            None => Ok(None),
            Some(i) => {
                if text_is(attributes[i].value.as_str(), "None") {
                    Ok(None)
                } else {
                    match parse_unsigned(attributes[i].value.as_str()) {
                        Some(v) => Ok(Some(SplitHandle(v))),
                        None => Err(Error::DocumentParse),
                    }
                }
            },
        }
    }

    /// Reads a node from position `pos` up to the end of its `split` element, returning it
    /// with the position after it. A ratio above `RATIO_ONE` or a malformed number fails.
    /// Events that `Split::save` wrote are read back into the same node.
    pub fn load(events: &Vec<DocEvent>, pos: usize) -> (r: Result<(Split, usize), Error>)
        ensures
            r matches Ok((s, p)) ==> s.rect == Rect::new(0, 0, 0, 0) && s.left_docks.rect == Rect::new(0, 0, 0, 0)
                && s.right_docks.rect == Rect::new(0, 0, 0, 0),
            r matches Ok((s, p)) ==> s.ratio <= RATIO_ONE && pos <= p && (p <= events@.len() || p == pos),
            r is Err ==> r == Err::<(Split, usize), Error>(Error::DocumentParse),
            r is Err <==> node_read_from(events@, pos as int, node_start()) is None,
            r matches Ok((s, p)) ==> node_read_from(events@, pos as int, node_start()) == Some(
                (node_read(s), p as int),
            ),
            forall|t: Split|
                #[trigger] split_written(events@, pos - 1, t) && t.ratio <= RATIO_ONE ==> (r matches Ok((s, p))
                    && s.ratio == t.ratio && s.direction == t.direction && s.handle == t.handle
                    && s.left_docks.docks@ == t.left_docks.docks@ && s.right_docks.docks@
                    == t.right_docks.docks@ && s.left == t.left && s.right == t.right && p
                    == stage_pos(pos - 1, t, 12) + 1),
    {
        let ghost at = pos - 1;
        let ghost w = exists|t: Split| #[trigger] split_written(events@, pos - 1, t) && t.ratio <= RATIO_ONE;
        let ghost tt = choose|t: Split| #[trigger] split_written(events@, pos - 1, t) && t.ratio <= RATIO_ONE;
        let ghost mut stage: int = 0;
        let mut split = Split::new(Direction::Full, crate::split::RATIO_HALF, SplitHandle(0));
        let mut i: usize = pos;
        proof {
            assert(node_read(split) =~= node_start()) by {
                assert(dock_pairs(split.left_docks.docks@) =~= Seq::<(u64, Seq<char>)>::empty());
                assert(dock_pairs(split.right_docks.docks@) =~= Seq::<(u64, Seq<char>)>::empty());
            }
        }
        while i < events.len()
            invariant
                pos <= i,
                i <= events@.len() || i == pos,
                split.rect == Rect::new(0, 0, 0, 0),
                split.left_docks.rect == Rect::new(0, 0, 0, 0),
                split.right_docks.rect == Rect::new(0, 0, 0, 0),
                split.ratio <= RATIO_ONE,
                at == pos - 1,
                node_read_from(events@, pos as int, node_start()) == node_read_from(
                    events@,
                    i as int,
                    node_read(split),
                ),
                w == exists|t: Split| #[trigger] split_written(events@, pos - 1, t) && t.ratio <= RATIO_ONE,
                w ==> split_written(events@, at, tt) && tt.ratio <= RATIO_ONE,
                w ==> 0 <= stage <= 12 && i == stage_pos(at, tt, stage) && loaded(split, tt, stage),
                w && stage == 6 ==> tt.left_docks.docks@.len() > 0,
                w && stage == 7 ==> tt.right_docks.docks@.len() > 0,
            decreases events@.len() - i,
        {
            proof {
                lemma_names();
                reveal_strlit("v");
                reveal_strlit("con");
            }
            let ghost st0 = stage;
            let ghost q = at + 7 + container_size(tt.left_docks.docks@);
            let ghost e = q + container_size(tt.right_docks.docks@);
            proof {
                if w {
                    if st0 == 6 {
                        assert(container_written(events@, at + 7, tt.left_docks.docks@, "left_docks"@));
                    }
                    if st0 == 7 {
                        assert(container_written(events@, q, tt.right_docks.docks@, "right_docks"@));
                    }
                }
            }
            match &events[i] {
                DocEvent::Start { name, attributes } => {
                    proof {
                        lemma_attr_at(attributes@, "v"@);
                        if let Some(j) = attr_at(attributes@, "v"@) {
                            assert(attributes@[j].name@ == "v"@);
                        }
                    }
                    let n = name.as_str();
                    if text_is(n, "left_docks") {
                        proof {
                            if w {
                                assert(st0 == 6);
                                assert((i + 1) - 1 == at + 7);
                                assert(container_written(events@, (i + 1) - 1, tt.left_docks.docks@, "left_docks"@));
                            }
                        }
                        match Container::load(events, i + 1, "left_docks") {
                            Ok((c, p)) => {
                                split.left_docks = c;
                                i = p;
                                proof {
                                    if w {
                                        stage = if tt.right_docks.docks@.len() > 0 { 7 } else { 8 };
                                        if stage == 8 {
                                            assert(split.right_docks.docks@ =~= tt.right_docks.docks@);
                                        }
                                        assert(i == stage_pos(at, tt, stage));
                                    }
                                }
                                continue;
                            },
                            Err(e) => return Err(e),
                        }
                    } else if text_is(n, "right_docks") {
                        proof {
                            if w {
                                assert(st0 == 7);
                                assert((i + 1) - 1 == q);
                                assert(container_written(events@, (i + 1) - 1, tt.right_docks.docks@, "right_docks"@));
                            }
                        }
                        match Container::load(events, i + 1, "right_docks") {
                            Ok((c, p)) => {
                                split.right_docks = c;
                                i = p;
                                proof {
                                    if w {
                                        stage = 8;
                                    }
                                }
                                continue;
                            },
                            Err(e) => return Err(e),
                        }
                    } else if text_is(n, "left") {
                        proof {
                            if w {
                                assert(st0 == 8);
                                assert(value_written(events@, e, "left"@, "con"@, child_text(tt.left)));
                                assert(first_attr(attributes@, "con"@, 0));
                            }
                        }
                        split.left = Self::parse_child(attributes)?;
                        proof {
                            if w {
                                stage = 9;
                            }
                        }
                    } else if text_is(n, "right") {
                        proof {
                            if w {
                                assert(st0 == 10);
                                assert(value_written(events@, e + 2, "right"@, "con"@, child_text(tt.right)));
                                assert(first_attr(attributes@, "con"@, 0));
                            }
                        }
                        split.right = Self::parse_child(attributes)?;
                        proof {
                            if w {
                                stage = 11;
                            }
                        }
                    } else if text_is(n, "ratio") {
                        proof {
                            if w {
                                assert(st0 == 0);
                                assert(first_attr(attributes@, "v"@, 0));
                                lemma_decimal_of(tt.ratio as nat);
                            }
                        }
                        match unsigned_attr(attributes, "v") {
                            Ok(Some(v)) => {
                                if v > RATIO_ONE as u64 {
                                    return Err(Error::DocumentParse);
                                }
                                split.ratio = v as u32;
                                proof {
                                    if w {
                                        stage = 1;
                                    }
                                }
                            },
                            _ => return Err(Error::DocumentParse),
                        }
                    } else if text_is(n, "handle") {
                        proof {
                            if w {
                                assert(st0 == 4);
                                assert(first_attr(attributes@, "v"@, 0));
                                lemma_decimal_of(tt.handle.0 as nat);
                            }
                        }
                        match unsigned_attr(attributes, "v") {
                            Ok(Some(v)) => {
                                split.handle = SplitHandle(v);
                                proof {
                                    if w {
                                        stage = 5;
                                    }
                                }
                            },
                            _ => return Err(Error::DocumentParse),
                        }
                    } else if text_is(n, "direction") {
                        proof {
                            if w {
                                assert(st0 == 2);
                                assert(first_attr(attributes@, "v"@, 0));
                            }
                        }
                        if let Some(k) = find_attr(attributes, "v") {
                            proof {
                                assert(attr_at(attributes@, "v"@) == Some(k as int));
                            }
                            let v = attributes[k].value.as_str();
                            split.direction = if text_is(v, "Vertical") {
                                Direction::Vertical
                            } else if text_is(v, "Horizontal") {
                                Direction::Horizontal
                            } else {
                                Direction::Full
                            };
                        }
                        proof {
                            if w {
                                assert(split.direction == tt.direction);
                                stage = 3;
                            }
                        }
                    } else {
                        proof {
                            if w {
                                assert(false);
                            }
                        }
                    }
                },
                DocEvent::End { name } => {
                    if text_is(name.as_str(), "split") {
                        proof {
                            if w {
                                assert(st0 == 12);
                                assert forall|t: Split|
                                    #[trigger] split_written(events@, pos - 1, t) && t.ratio <= RATIO_ONE implies
                                    split.ratio == t.ratio && split.direction == t.direction && split.handle == t.handle
                                    && split.left_docks.docks@ == t.left_docks.docks@ && split.right_docks.docks@
                                    == t.right_docks.docks@ && split.left == t.left && split.right == t.right
                                    && i + 1 == stage_pos(pos - 1, t, 12) + 1 by {
                                    lemma_split_written_unique(events@, at, t, tt);
                                }
                            }
                        }
                        return Ok((split, i + 1));
                    }
                    proof {
                        if w {
                            assert(st0 == 1 || st0 == 3 || st0 == 5 || st0 == 9 || st0 == 11);
                            stage = if st0 == 5 { after_handle(tt) } else { st0 + 1 };
                            if stage >= 7 && tt.left_docks.docks@.len() == 0 {
                                assert(split.left_docks.docks@ =~= tt.left_docks.docks@);
                            }
                            if stage >= 8 && tt.right_docks.docks@.len() == 0 {
                                assert(split.right_docks.docks@ =~= tt.right_docks.docks@);
                            }
                        }
                    }
                },
            }
            i += 1;
        }
        proof {
            if w {
                assert(i < events@.len());
            }
        }
        Ok((split, i))
    }
}

/// Whether a node of `splits` has handle `h`.
fn contains_split(splits: &Vec<Split>, h: SplitHandle) -> (r: bool)
    ensures
        r == has_split(splits@, h),
{
    let mut i: usize = 0;
    while i < splits.len()
        invariant
            i <= splits@.len(),
            forall|j: int| 0 <= j < i ==> (#[trigger] splits@[j]).handle != h,
        decreases splits@.len() - i,
    {
        if splits[i].handle == h {
            return true;
        }
        i += 1;
    }
    false
}

/// Whether the arena has its root, every child reference resolves and every ratio is a
/// fraction.
fn arena_valid(splits: &Vec<Split>) -> (r: bool)
    ensures
        r == (arena_ok(splits@) && has_split(splits@, SplitHandle(0))),
{
    let mut i: usize = 0;
    while i < splits.len()
        invariant
            i <= splits@.len(),
            forall|j: int|
                0 <= j < i ==> {
                    &&& (#[trigger] splits@[j]).ratio <= RATIO_ONE
                    &&& (splits@[j].left matches Some(h) ==> has_split(splits@, h))
                    &&& (splits@[j].right matches Some(h) ==> has_split(splits@, h))
                },
        decreases splits@.len() - i,
    {
        let s = &splits[i];
        if s.ratio > RATIO_ONE {
            return false;
        }
        if let Some(h) = s.left {
            if !contains_split(splits, h) {
                return false;
            }
        }
        if let Some(h) = s.right {
            if !contains_split(splits, h) {
                return false;
            }
        }
        i += 1;
    }
    contains_split(splits, SplitHandle(0))
}

/// The largest handle in the arena, 0 for an empty one.
fn max_handle(splits: &Vec<Split>) -> (r: u64)
    ensures
        forall|j: int| 0 <= j < splits@.len() ==> (#[trigger] splits@[j]).handle.0 <= r,
{
    let mut m: u64 = 0;
    let mut i: usize = 0;
    while i < splits.len()
        invariant
            i <= splits@.len(),
            forall|j: int| 0 <= j < i ==> (#[trigger] splits@[j]).handle.0 <= m,
        decreases splits@.len() - i,
    {
        if splits[i].handle.0 > m {
            m = splits[i].handle.0;
        }
        i += 1;
    }
    m
}

impl Workspace {
    /// The document of the workspace: its root rect, then every node in arena order.
    pub fn save(&self) -> (r: Vec<DocEvent>)
        ensures
            workspace_written(r@, self.rect, self.splits@),
    {
        let mut out: Vec<DocEvent> = Vec::new();
        out.push(start("workspace", Vec::new()));
        let ghost o1 = out@;
        self.rect.save(&mut out);
        proof {
            assert(out@[0] == out@.subrange(0, 1)[0]);
            assert(rect_written(out@, 1, self.rect));
        }
        let mut i: usize = 0;
        while i < self.splits.len()
            invariant
                i <= self.splits@.len(),
                out@.len() == split_offset(self.splits@, i as int),
                out@[0] == o1[0],
                rect_written(out@, 1, self.rect),
                forall|k: int|
                    0 <= k < i ==> split_written(out@, #[trigger] split_offset(self.splits@, k), self.splits@[k]),
            decreases self.splits@.len() - i,
        {
            let ghost before = out@;
            self.splits[i].save(&mut out);
            proof {
                assert(out@[0] == out@.subrange(0, before.len() as int)[0]);
                lemma_grown(before, out@);
                assert(out@[1] == before[1]);
                assert(out@[2] == before[2]);
                assert forall|k: int|
                    0 <= k < i + 1 implies split_written(out@, #[trigger] split_offset(self.splits@, k), self.splits@[k]) by {
                    if k < i {
                        lemma_split_grown(before, out@, split_offset(self.splits@, k), self.splits@[k]);
                    }
                }
            }
            i += 1;
        }
        let ghost before = out@;
        out.push(end("workspace"));
        proof {
            assert(out@.subrange(0, before.len() as int) =~= before);
            lemma_grown(before, out@);
            assert(out@[0] == before[0]);
            assert(out@[1] == before[1]);
            assert(out@[2] == before[2]);
            assert forall|k: int|
                0 <= k < self.splits@.len() implies split_written(out@, #[trigger] split_offset(self.splits@, k), self.splits@[k]) by {
                lemma_split_grown(before, out@, split_offset(self.splits@, k), self.splits@[k]);
            }
            reveal_strlit("workspace");
        }
        out
    }

    /// Reads the root rect and the nodes of a document into this workspace, appending the
    /// nodes in document order, up to the end of the `workspace` element. A document that
    /// `Workspace::save` wrote is read back into an empty arena: the same rect and the same
    /// nodes, but for the rects that the layout pass computes.
    pub fn internal_load(&mut self, events: &Vec<DocEvent>) -> (r: Result<(), Error>)
        ensures
            r is Err ==> r == Err::<(), Error>(Error::DocumentParse),
            final(self).handle_counter == old(self).handle_counter,
            final(self).window_border == old(self).window_border,
            r is Err <==> workspace_read(events@, 0, old(self).rect, node_reads(old(self).splits@)) is None,
            r is Ok ==> workspace_read(events@, 0, old(self).rect, node_reads(old(self).splits@)) == Some(
                (final(self).rect, node_reads(final(self).splits@)),
            ),
            forall|rect: Rect, splits: Seq<Split>|
                #[trigger] workspace_written(events@, rect, splits) && arena_ok(splits) && old(self).splits@.len()
                    == 0 ==> r is Ok && final(self).rect == rect && same_shape(splits, final(self).splits@),
    {
        let ghost w = exists|rect: Rect, splits: Seq<Split>|
            #[trigger] workspace_written(events@, rect, splits) && arena_ok(splits) && old(self).splits@.len() == 0;
        let ghost pick = choose|p: (Rect, Seq<Split>)|
            #[trigger] workspace_written(events@, p.0, p.1) && arena_ok(p.1) && old(self).splits@.len() == 0;
        let ghost rr = pick.0;
        let ghost ss = pick.1;
        proof {
            if w {
                let (rect, splits) = choose|rect: Rect, splits: Seq<Split>|
                    #[trigger] workspace_written(events@, rect, splits) && arena_ok(splits) && old(self).splits@.len() == 0;
                assert(workspace_written(events@, (rect, splits).0, (rect, splits).1));
            }
        }
        let mut i: usize = 0;
        while i < events.len()
            invariant
                self.handle_counter == old(self).handle_counter,
                self.window_border == old(self).window_border,
                i <= events@.len(),
                workspace_read(events@, 0, old(self).rect, node_reads(old(self).splits@)) == workspace_read(
                    events@,
                    i as int,
                    self.rect,
                    node_reads(self.splits@),
                ),
                w == exists|rect: Rect, splits: Seq<Split>|
                    #[trigger] workspace_written(events@, rect, splits) && arena_ok(splits) && old(self).splits@.len() == 0,
                w ==> workspace_written(events@, rr, ss) && arena_ok(ss) && old(self).splits@.len() == 0,
                w ==> self.splits@.len() <= ss.len() && forall|j: int|
                    0 <= j < self.splits@.len() ==> same_node(#[trigger] ss[j], self.splits@[j]),
                w ==> (i <= 2 && self.splits@.len() == 0) || (i == split_offset(ss, self.splits@.len() as int)
                    && self.rect == rr),
                w && i == 2 ==> self.rect == rr,
            decreases events@.len() - i,
        {
            proof {
                lemma_names();
                reveal_strlit("workspace");
                reveal_strlit("rect");
                reveal_strlit("split");
                assert("rect"@.len() == 4 && "workspace"@.len() == 9);
                assert("rect"@ != "split"@);
            }
            let ghost k = self.splits@.len() as int;
            match &events[i] {
                DocEvent::Start { name, attributes } => {
                    proof {
                        if w {
                            if i == 1 {
                                assert(rect_written(events@, 1, rr));
                            }
                            if i == 2 {
                                assert(rect_written(events@, 1, rr));
                            }
                            if i > 2 {
                                if k == ss.len() {
                                    assert(is_end(events@[events@.len() - 1], "workspace"@));
                                }
                                assert(split_written(events@, split_offset(ss, k), ss[k]));
                            }
                        }
                    }
                    if text_is(name.as_str(), "rect") {
                        proof {
                            if w {
                                assert(i == 1);
                                lemma_rect_round_trip(rr, attributes@);
                            }
                        }
                        self.rect = Rect::load(attributes)?;
                    } else if text_is(name.as_str(), "split") {
                        proof {
                            if w {
                                assert(i > 2);
                                assert((i + 1) - 1 == split_offset(ss, k));
                                assert(split_written(events@, (i + 1) - 1, ss[k]));
                                assert(ss[k].ratio <= RATIO_ONE);
                            }
                        }
                        let (split, p) = Split::load(events, i + 1)?;
                        let ghost before = self.splits@;
                        self.splits.push(split);
                        proof {
                            assert(node_reads(self.splits@) =~= node_reads(before).push(node_read(split)));
                        }
                        i = p;
                        proof {
                            if w {
                                assert(same_node(ss[k], self.splits@[k]));
                                assert(split_offset(ss, k + 1) == split_offset(ss, k) + split_size(ss[k]));
                                assert forall|j: int| 0 <= j < self.splits@.len() implies same_node(
                                    #[trigger] ss[j], self.splits@[j]) by {
                                    if j < k {
                                        assert(self.splits@[j] == before[j]);
                                    }
                                }
                            }
                        }
                        continue;
                    } else {
                        proof {
                            if w {
                                assert(i == 0);
                            }
                        }
                    }
                },
                DocEvent::End { name } => {
                    proof {
                        if w {
                            if i <= 2 {
                                assert(rect_written(events@, 1, rr));
                                assert(i == 2);
                            } else if k < ss.len() {
                                assert(split_written(events@, split_offset(ss, k), ss[k]));
                            }
                        }
                    }
                    if text_is(name.as_str(), "workspace") {
                        proof {
                            if w {
                                assert(i > 2 && k == ss.len());
                                assert forall|rect: Rect, splits: Seq<Split>|
                                    #[trigger] workspace_written(events@, rect, splits) && arena_ok(splits)
                                        && old(self).splits@.len() == 0 implies self.rect == rect && same_shape(
                                    splits, self.splits@) by {
                                    lemma_workspace_written_unique(events@, rect, splits, rr, ss);
                                    assert forall|j: int| 0 <= j < splits.len() implies same_node(
                                        #[trigger] splits[j], self.splits@[j]) by {
                                        assert(same_node(splits[j], ss[j]));
                                        assert(same_node(ss[j], self.splits@[j]));
                                    }
                                }
                            }
                        }
                        return Ok(());
                    }
                },
            }
            i += 1;
        }
        proof {
            assert(workspace_read(events@, i as int, self.rect, node_reads(self.splits@)) == Some(
                (self.rect, node_reads(self.splits@))));
            if w && i >= events@.len() {
                let k = self.splits@.len() as int;
                if k < ss.len() {
                    assert(split_written(events@, split_offset(ss, k), ss[k]));
                }
                assert(false);
            }
        }
        Ok(())
    }

    /// The workspace that a document describes; `None` where a number is malformed, the
    /// root node is missing, a child reference names no node, or the root rect is not one a
    /// workspace can be made with or laid out in. Handles handed out later
    /// follow the largest one loaded. What `Workspace::save` wrote for a well-formed
    /// workspace loads back with the same root rect and the same nodes in the same order.
    pub fn load(events: &Vec<DocEvent>) -> (r: Option<Workspace>)
        ensures
            r matches Some(w) ==> w.wf(),
            r is Some <==> (workspace_read(events@, 0, Rect::new(0, 0, 1, 1), Seq::empty()) matches Some(x)
                && reads_ok(x.1) && valid_root(x.0) && divisible(x.0)),
            r matches Some(w) ==> workspace_read(events@, 0, Rect::new(0, 0, 1, 1), Seq::empty()) == Some(
                (w.rect, node_reads(w.splits@)),
            ) && w.window_border == 4,
            forall|rect: Rect, splits: Seq<Split>|
                #[trigger] workspace_written(events@, rect, splits) && arena_ok(splits) && has_split(
                    splits,
                    SplitHandle(0),
                ) && valid_root(rect) && divisible(rect) ==> (r matches Some(w) && w.rect == rect && same_shape(splits, w.splits@)),
    {
        let mut ws = Workspace {
            splits: Vec::new(),
            rect: Rect::new(0, 0, 1, 1),
            window_border: 4,
            handle_counter: SplitHandle(0),
        };
        proof {
            assert(node_reads(ws.splits@) =~= Seq::<NodeRead>::empty());
        }
        let res = ws.internal_load(events);
        if res.is_err() {
            return None;
        }
        proof {
            lemma_reads_ok(ws.splits@);
        }
        proof {
            assert forall|rect: Rect, splits: Seq<Split>|
                #[trigger] workspace_written(events@, rect, splits) && arena_ok(splits) && has_split(
                    splits, SplitHandle(0)) implies arena_ok(ws.splits@) && has_split(ws.splits@, SplitHandle(0)) by {
                lemma_same_shape(splits, ws.splits@);
            }
        }
        if !arena_valid(&ws.splits) {
            return None;
        }
        let r = ws.rect;
        if r.x < 0 || r.y < 0 || r.width <= 0 || r.height <= 0 || r.x as i64 + r.width as i64 > i32::MAX as i64
            || r.y as i64 + r.height as i64 > i32::MAX as i64 {
            return None;
        }
        ws.handle_counter = SplitHandle(max_handle(&ws.splits));
        Some(ws)
    }
}

} // verus!
