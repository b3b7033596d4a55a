use viewdock::decimal::{parse_i32, parse_unsigned, signed_text, unsigned_text};
use viewdock::document::text_is;
use viewdock::{Attribute, DocEvent, Direction, DockHandle, Rect, Split, SplitHandle, Workspace};

fn attr(name: &str, value: &str) -> Attribute {
    Attribute { name: name.to_string(), value: value.to_string() }
}

fn start(name: &str, attributes: Vec<Attribute>) -> DocEvent {
    DocEvent::Start { name: name.to_string(), attributes }
}

fn end(name: &str) -> DocEvent {
    DocEvent::End { name: name.to_string() }
}

fn sample() -> Workspace {
    let mut ws = Workspace::new(Rect::new(0, 0, 1000, 800)).unwrap();
    ws.split(DockHandle(1), Direction::Vertical);
    ws.split(DockHandle(2), Direction::Vertical);
    ws.split_by_dock_handle(Direction::Horizontal, DockHandle(1), DockHandle(3));
    ws.set_name_to_handle(&"Registers".to_string(), DockHandle(3));
    ws.set_name_to_handle(&"Source <main.c>".to_string(), DockHandle(2));
    ws.update();
    ws.drag_sizer(SplitHandle(3), (0, 40));
    ws.update();
    ws
}

fn docks_with_rects(ws: &Workspace) -> Vec<(u64, String, Option<Rect>)> {
    let mut v: Vec<(u64, String, Option<Rect>)> = ws
        .get_docks()
        .iter()
        .map(|d| (d.handle.0, d.name.clone(), ws.get_rect_by_handle(d.handle)))
        .collect();
    v.sort_by_key(|t| t.0);
    v
}

#[test]
fn numbers_are_spelled_in_decimal() {
    assert_eq!(unsigned_text(0), "0");
    assert_eq!(unsigned_text(1024), "1024");
    assert_eq!(unsigned_text(u64::MAX), "18446744073709551615");
    assert_eq!(signed_text(-37), "-37");
    assert_eq!(signed_text(i64::MIN), "-9223372036854775808");
}

#[test]
fn numbers_are_read_back() {
    assert_eq!(parse_unsigned("18446744073709551615"), Some(u64::MAX));
    assert_eq!(parse_unsigned("18446744073709551616"), None);
    assert_eq!(parse_unsigned("007"), Some(7));
    assert_eq!(parse_unsigned(""), None);
    assert_eq!(parse_unsigned("1.5"), None);
    assert_eq!(parse_unsigned("-1"), None);
    assert_eq!(parse_i32("-2147483648"), Some(i32::MIN));
    assert_eq!(parse_i32("2147483647"), Some(i32::MAX));
    assert_eq!(parse_i32("2147483648"), None);
    assert_eq!(parse_i32("-"), None);
    assert_eq!(parse_i32("12a"), None);
}

#[test]
fn text_comparison() {
    assert!(text_is("split", "split"));
    assert!(!text_is("splits", "split"));
    assert!(!text_is("Split", "split"));
}

#[test]
fn rect_load_defaults_and_overrides() {
    let r = Rect::load(&vec![attr("width", "640"), attr("unknown", "zz")]).unwrap();
    assert_eq!(r, Rect::new(0, 0, 640, 768));
    assert_eq!(Rect::load(&vec![]).unwrap(), Rect::new(0, 0, 1024, 768));
    assert!(Rect::load(&vec![attr("x", "ten")]).is_err());
}

#[test]
fn rect_save_then_load() {
    let r = Rect::new(-5, 7, 300, 200);
    let mut out = Vec::new();
    r.save(&mut out);
    assert_eq!(out.len(), 2);
    match &out[0] {
        DocEvent::Start { name, attributes } => {
            assert_eq!(name, "rect");
            assert_eq!(Rect::load(attributes).unwrap(), r);
        }
        _ => panic!("rect element expected"),
    }
}

#[test]
fn parse_child_values() {
    assert_eq!(Split::parse_child(&vec![attr("con", "None")]).unwrap(), None);
    assert_eq!(Split::parse_child(&vec![attr("con", "12")]).unwrap(), Some(SplitHandle(12)));
    assert_eq!(Split::parse_child(&vec![]).unwrap(), None);
    assert!(Split::parse_child(&vec![attr("con", "x")]).is_err());
}

#[test]
fn workspace_round_trip_keeps_names_and_rects() {
    let ws = sample();
    let before = docks_with_rects(&ws);
    let events = ws.save();
    let mut loaded = Workspace::load(&events).unwrap();
    loaded.update();
    assert_eq!(docks_with_rects(&loaded), before);
    assert_eq!(loaded.rect, ws.rect);
    assert_eq!(loaded.splits.len(), ws.splits.len());
    assert_eq!(loaded.splits[1].ratio, ws.splits[1].ratio);
}

#[test]
fn round_trip_ignores_split_order() {
    let ws = sample();
    let before = docks_with_rects(&ws);
    let events = ws.save();
    // move the first split element after the second one
    let mut starts = Vec::new();
    for (i, e) in events.iter().enumerate() {
        if let DocEvent::Start { name, .. } = e {
            if name == "split" {
                starts.push(i);
            }
        }
    }
    assert_eq!(starts.len(), 2);
    let rebuild = |range: std::ops::Range<usize>| -> Vec<DocEvent> {
        events[range]
            .iter()
            .map(|e| match e {
                DocEvent::Start { name, attributes } => DocEvent::Start {
                    name: name.clone(),
                    attributes: attributes
                        .iter()
                        .map(|a| Attribute { name: a.name.clone(), value: a.value.clone() })
                        .collect(),
                },
                DocEvent::End { name } => DocEvent::End { name: name.clone() },
            })
            .collect()
    };
    let mut reordered = rebuild(0..starts[0]);
    reordered.extend(rebuild(starts[1]..events.len() - 1));
    reordered.extend(rebuild(starts[0]..starts[1]));
    reordered.push(end("workspace"));
    let mut loaded = Workspace::load(&reordered).unwrap();
    loaded.update();
    assert_eq!(loaded.splits[0].handle, SplitHandle(3));
    assert_eq!(docks_with_rects(&loaded), before);
}

#[test]
fn load_rejects_malformed_ratio() {
    let events = vec![
        start("workspace", vec![]),
        start("split", vec![]),
        start("ratio", vec![attr("v", "half")]),
        end("ratio"),
        end("split"),
        end("workspace"),
    ];
    assert!(Workspace::load(&events).is_none());
}

#[test]
fn load_rejects_missing_root_and_dangling_child() {
    let no_root = vec![
        start("workspace", vec![]),
        start("split", vec![]),
        start("handle", vec![attr("v", "4")]),
        end("handle"),
        end("split"),
        end("workspace"),
    ];
    assert!(Workspace::load(&no_root).is_none());

    let dangling = vec![
        start("workspace", vec![]),
        start("split", vec![]),
        start("handle", vec![attr("v", "0")]),
        end("handle"),
        start("left", vec![attr("con", "9")]),
        end("left"),
        end("split"),
        end("workspace"),
    ];
    assert!(Workspace::load(&dangling).is_none());
}

#[test]
fn loaded_workspace_hands_out_fresh_handles() {
    let ws = sample();
    let mut loaded = Workspace::load(&ws.save()).unwrap();
    loaded.split_by_dock_handle(Direction::Vertical, DockHandle(2), DockHandle(7));
    let handles: Vec<u64> = loaded.splits.iter().map(|s| s.handle.0).collect();
    assert_eq!(handles, vec![0, 3, 4]);
}

#[test]
fn unknown_elements_and_attributes_are_skipped() {
    let events = vec![
        start("workspace", vec![]),
        start("theme", vec![attr("color", "dark")]),
        end("theme"),
        start("split", vec![]),
        start("handle", vec![attr("v", "0"), attr("extra", "x")]),
        end("handle"),
        start("direction", vec![attr("v", "Diagonal")]),
        end("direction"),
        start("note", vec![]),
        end("note"),
        start("left_docks", vec![]),
        start("dock", vec![attr("handle", "5"), attr("name", "Memory")]),
        end("dock"),
        start("tab", vec![]),
        end("tab"),
        end("left_docks"),
        end("split"),
        end("workspace"),
    ];
    let ws = Workspace::load(&events).unwrap();
    assert_eq!(ws.rect, Rect::new(0, 0, 1, 1));
    assert_eq!(ws.splits.len(), 1);
    assert_eq!(ws.splits[0].direction, Direction::Full);
    assert_eq!(ws.splits[0].ratio, 5000);
    assert_eq!(ws.splits[0].left_docks.docks[0].handle, DockHandle(5));
    assert_eq!(ws.splits[0].left_docks.docks[0].name, "Memory");
}

#[test]
fn malformed_dock_handle_fails() {
    let events = vec![
        start("left_docks", vec![]),
        start("dock", vec![attr("handle", "five")]),
        end("dock"),
        end("left_docks"),
    ];
    assert!(viewdock::Container::load(&events, 1, "left_docks").is_err());
}

#[test]
fn unsigned_numbers_accept_a_plus_sign() {
    assert_eq!(parse_unsigned("+42"), Some(42));
    assert_eq!(parse_unsigned("+"), None);
    assert_eq!(parse_unsigned("++1"), None);
    assert_eq!(Split::parse_child(&vec![attr("con", "+7")]).unwrap(), Some(SplitHandle(7)));
}
