use viewdock::{Direction, DockHandle, Rect, Split, SplitHandle, Workspace, RATIO_MAX, RATIO_MIN};

fn check_range(inv: i64, value: i64, delta: i64) -> bool {
    (inv - value).abs() < delta
}

#[test]
fn test_validate_x_less_than_zero() {
    assert_eq!(Workspace::new(Rect::new(-1, 0, 1, 1)).is_err(), true);
}

#[test]
fn test_validate_y_less_than_zero() {
    assert_eq!(Workspace::new(Rect::new(0, -1, 1, 1)).is_err(), true);
}

#[test]
fn test_validate_width_zero() {
    assert_eq!(Workspace::new(Rect::new(0, 0, 0, 1)).is_err(), true);
}

#[test]
fn test_validate_height_zero() {
    assert_eq!(Workspace::new(Rect::new(0, 0, 1, 0)).is_err(), true);
}

#[test]
fn test_validate_width_less_than_zero() {
    assert_eq!(Workspace::new(Rect::new(0, 0, -1, 0)).is_err(), true);
}

#[test]
fn test_validate_height_less_than_zero() {
    assert_eq!(Workspace::new(Rect::new(0, 0, 0, -1)).is_err(), true);
}

#[test]
fn test_validate_workspace_ok() {
    assert_eq!(Workspace::new(Rect::new(0, 0, 1024, 1024)).is_ok(), true);
}

#[test]
fn test_split_top() {
    let mut ws = Workspace::new(Rect::new(0, 0, 1024, 1024)).unwrap();
    ws.split(DockHandle(1), Direction::Vertical);

    assert_eq!(ws.splits.len(), 1);
    let split = &ws.splits[0];

    assert_eq!(split.left_docks.docks.len(), 1);
}

#[test]
fn test_split_top_2() {
    let mut ws = Workspace::new(Rect::new(0, 0, 1024, 1024)).unwrap();
    ws.split(DockHandle(1), Direction::Vertical);
    ws.split(DockHandle(2), Direction::Vertical);

    assert_eq!(ws.splits.len(), 1);
    let split = &ws.splits[0];

    assert_eq!(split.right_docks.docks.len(), 1);
    assert_eq!(split.left_docks.docks.len(), 1);
    assert_eq!(check_range(split.ratio as i64, 5000, 100), true);
}

#[test]
fn test_calc_rect_horz_half() {
    let rects = Workspace::calc_horizontal_sizing(Rect::new(0, 0, 1024, 1024), 5000);

    assert_eq!(rects.0.x, 0);
    assert_eq!(rects.0.y, 0);
    assert_eq!(rects.0.width, 1024);
    assert_eq!(rects.0.height, 512);

    assert_eq!(rects.1.x, 0);
    assert_eq!(rects.1.y, 512);
    assert_eq!(rects.1.width, 1024);
    assert_eq!(rects.1.height, 512);
}

#[test]
fn test_calc_rect_horz_25_per() {
    let rects = Workspace::calc_horizontal_sizing(Rect::new(0, 0, 1024, 1024), 2500);

    assert_eq!(rects.0.x, 0);
    assert_eq!(rects.0.y, 0);
    assert_eq!(rects.0.width, 1024);
    assert_eq!(rects.0.height, 256);

    assert_eq!(rects.1.x, 0);
    assert_eq!(rects.1.y, 256);
    assert_eq!(rects.1.width, 1024);
    assert_eq!(rects.1.height, 768);
}

#[test]
fn test_calc_rect_horz_25_per_2() {
    let rects = Workspace::calc_horizontal_sizing(Rect::new(16, 32, 512, 1024), 2500);

    assert_eq!(rects.0.x, 16);
    assert_eq!(rects.0.y, 32);
    assert_eq!(rects.0.width, 512);
    assert_eq!(rects.0.height, 256);

    assert_eq!(rects.1.x, 16);
    assert_eq!(rects.1.y, 288);
    assert_eq!(rects.1.width, 512);
    assert_eq!(rects.1.height, 768);
}

#[test]
fn test_gen_horizontal_size() {
    let border_size = 4;
    let rect_in = Rect::new(10, 20, 30, 40);
    let rect = Split::get_sizer_from_rect_horizontal(rect_in, border_size);

    assert_eq!(rect.x, rect_in.x);
    assert_eq!(rect.y, 60);
    assert_eq!(rect.width, rect_in.width);
    assert_eq!(rect.height, border_size);
}

#[test]
fn test_gen_vertical_size() {
    let border_size = 4;
    let rect_in = Rect::new(10, 20, 30, 40);
    let rect = Split::get_sizer_from_rect_vertical(rect_in, border_size);

    assert_eq!(rect.x, 40);
    assert_eq!(rect.y, rect_in.y);
    assert_eq!(rect.width, border_size);
    assert_eq!(rect.height, rect_in.height);
}

#[test]
fn test_inside_horizontal() {
    let border_size = 4;
    let rect = Rect::new(10, 20, 30, 40);
    let rect_horz = Split::get_sizer_from_rect_horizontal(rect, border_size);

    assert_eq!(Rect::is_inside((9, 61), rect_horz), false);
    assert_eq!(Rect::is_inside((11, 61), rect_horz), true);
}

#[test]
fn containment_is_half_open() {
    let r = Rect::new(0, 0, 10, 10);
    assert!(Rect::is_inside((0, 0), r));
    assert!(Rect::is_inside((9, 9), r));
    assert!(!Rect::is_inside((10, 5), r));
    assert!(!Rect::is_inside((5, 10), r));
    assert!(!Rect::is_inside((-1, 5), r));
}

#[test]
fn vertical_sizing_splits_width() {
    let rects = Workspace::calc_vertical_sizing(Rect::new(10, 20, 1000, 300), 2500);
    assert_eq!(rects.0, Rect::new(10, 20, 250, 300));
    assert_eq!(rects.1, Rect::new(260, 20, 750, 300));
}

fn two_dock_workspace() -> Workspace {
    let mut ws = Workspace::new(Rect::new(0, 0, 1000, 800)).unwrap();
    ws.split(DockHandle(1), Direction::Vertical);
    ws.split(DockHandle(2), Direction::Vertical);
    ws
}

#[test]
fn drag_is_clamped_both_ways() {
    let mut ws = two_dock_workspace();
    ws.update();
    ws.drag_sizer(SplitHandle(0), (-100000, 0));
    assert_eq!(ws.splits[0].ratio, RATIO_MAX);
    ws.drag_sizer(SplitHandle(0), (100000, 0));
    assert_eq!(ws.splits[0].ratio, RATIO_MIN);
    for _ in 0..50 {
        ws.drag_sizer(SplitHandle(0), (-700, 0));
        assert!(ws.splits[0].ratio >= RATIO_MIN && ws.splits[0].ratio <= RATIO_MAX);
    }
}

#[test]
fn drag_moves_ratio_by_delta_over_width() {
    let mut ws = two_dock_workspace();
    ws.update();
    // width 1000: a pointer move of -100 gives a tenth more to the left side
    ws.drag_sizer(SplitHandle(0), (-100, 0));
    assert_eq!(ws.splits[0].ratio, 6000);
    ws.drag_sizer(SplitHandle(0), (50, 7));
    assert_eq!(ws.splits[0].ratio, 5500);
}

#[test]
fn drag_on_full_split_only_clamps() {
    let mut ws = Workspace::new(Rect::new(0, 0, 100, 100)).unwrap();
    ws.drag_sizer(SplitHandle(0), (10, 10));
    assert_eq!(ws.splits[0].ratio, RATIO_MIN);
}

#[test]
fn map_rect_to_delta_by_direction() {
    let mut s = Split::new(Direction::Horizontal, 5000, SplitHandle(3));
    s.rect = Rect::new(0, 0, 200, 400);
    assert_eq!(s.map_rect_to_delta((7, 40)), -1000);
    assert_eq!(s.map_rect_to_delta((7, -40)), 1000);
    s.direction = Direction::Full;
    assert_eq!(s.map_rect_to_delta((7, 40)), 0);
}

#[test]
fn split_twice_gives_one_dock_each_side_at_half() {
    let ws = two_dock_workspace();
    let s = &ws.splits[0];
    assert_eq!(s.left_docks.docks[0].handle, DockHandle(1));
    assert_eq!(s.right_docks.docks[0].handle, DockHandle(2));
    assert_eq!(s.ratio, 5000);
    assert_eq!(s.direction, Direction::Vertical);
}

#[test]
fn split_by_dock_handle_creates_child() {
    let mut ws = two_dock_workspace();
    ws.split_by_dock_handle(Direction::Horizontal, DockHandle(1), DockHandle(3));
    assert_eq!(ws.splits.len(), 2);
    let root = &ws.splits[0];
    assert_eq!(root.left, Some(SplitHandle(3)));
    assert_eq!(root.left_docks.docks.len(), 0);
    let child = &ws.splits[1];
    assert_eq!(child.handle, SplitHandle(3));
    assert_eq!(child.direction, Direction::Horizontal);
    assert_eq!(child.left_docks.docks[0].handle, DockHandle(3));
    assert_eq!(child.right_docks.docks[0].handle, DockHandle(1));

    ws.update();
    assert_eq!(ws.get_rect_by_handle(DockHandle(2)), Some(Rect::new(500, 0, 500, 800)));
    assert_eq!(ws.get_rect_by_handle(DockHandle(3)), Some(Rect::new(0, 0, 500, 400)));
    assert_eq!(ws.get_rect_by_handle(DockHandle(1)), Some(Rect::new(0, 400, 500, 400)));
    assert_eq!(ws.get_rect_by_handle(DockHandle(9)), None);
}

#[test]
fn split_by_missing_dock_changes_nothing() {
    let mut ws = two_dock_workspace();
    ws.split_by_dock_handle(Direction::Horizontal, DockHandle(42), DockHandle(3));
    assert_eq!(ws.splits.len(), 1);
    assert_eq!(ws.get_docks().len(), 2);
}

#[test]
fn delete_both_sides_returns_to_full_root() {
    let mut ws = two_dock_workspace();
    ws.delete_by_handle(DockHandle(1));
    assert_eq!(ws.splits.len(), 1);
    assert_eq!(ws.splits[0].ratio, 0);
    assert_eq!(ws.splits[0].direction, Direction::Vertical);
    ws.delete_by_handle(DockHandle(2));
    assert_eq!(ws.splits.len(), 1);
    assert_eq!(ws.splits[0].direction, Direction::Full);
}

#[test]
fn delete_merges_empty_child() {
    let mut ws = two_dock_workspace();
    ws.split_by_dock_handle(Direction::Horizontal, DockHandle(1), DockHandle(3));
    ws.delete_by_handle(DockHandle(3));
    assert_eq!(ws.splits.len(), 2);
    assert_eq!(ws.splits[1].ratio, 0);
    ws.delete_by_handle(DockHandle(1));
    assert_eq!(ws.splits.len(), 1);
    assert_eq!(ws.splits[0].left, None);
    assert_eq!(ws.splits[0].ratio, 0);
    let docks = ws.get_docks();
    assert_eq!(docks.len(), 1);
    assert_eq!(docks[0].handle, DockHandle(2));
}

#[test]
fn hover_finds_dock_under_point() {
    let mut ws = two_dock_workspace();
    ws.update();
    assert_eq!(ws.get_hover_dock((10, 10)), Some(DockHandle(1)));
    assert_eq!(ws.get_hover_dock((600, 10)), Some(DockHandle(2)));
    assert_eq!(ws.get_hover_dock((1000, 10)), None);
}

#[test]
fn hover_prefers_smallest_container() {
    let mut ws = two_dock_workspace();
    ws.update();
    // a stale large container over the same point loses to the tighter one
    ws.splits[0].right_docks.rect = Rect::new(0, 0, 1000, 800);
    assert_eq!(ws.get_hover_dock((10, 10)), Some(DockHandle(1)));
    assert_eq!(ws.get_hover_dock((900, 10)), Some(DockHandle(2)));
}

#[test]
fn sizer_hover_after_layout() {
    let mut ws = two_dock_workspace();
    ws.update();
    assert_eq!(ws.is_hovering_sizer((500, 100)), Some((SplitHandle(0), Direction::Vertical)));
    assert_eq!(ws.is_hovering_sizer((507, 100)), Some((SplitHandle(0), Direction::Vertical)));
    assert_eq!(ws.is_hovering_sizer((508, 100)), None);
    assert_eq!(ws.is_hovering_sizer((499, 100)), None);
}

#[test]
fn rename_dock() {
    let mut ws = two_dock_workspace();
    ws.set_name_to_handle(&"Memory".to_string(), DockHandle(2));
    let docks = ws.get_docks();
    assert_eq!(docks[0].name, "");
    assert_eq!(docks[1].name, "Memory");
}

#[test]
fn container_remove_swaps_last_in() {
    let mut ws = two_dock_workspace();
    let c = &mut ws.splits[0].left_docks;
    c.docks.push(viewdock::Dock::new(DockHandle(5)));
    c.docks.push(viewdock::Dock::new(DockHandle(6)));
    assert!(c.remove_handle(DockHandle(1)));
    assert_eq!(c.docks.len(), 2);
    assert_eq!(c.docks[0].handle, DockHandle(6));
    assert_eq!(c.docks[1].handle, DockHandle(5));
    assert!(!c.remove_handle(DockHandle(1)));
    assert!(c.find_handle(DockHandle(5)));
    assert!(!c.set_dock_name(&"x".to_string(), DockHandle(1)));
}

#[test]
fn new_split_opens_dock_in_lone_root() {
    let mut ws = Workspace::new(Rect::new(0, 0, 100, 100)).unwrap();
    ws.new_split(DockHandle(4), Direction::Horizontal);
    assert_eq!(ws.splits[0].left_docks.docks[0].handle, DockHandle(4));
    assert_eq!(ws.splits[0].direction, Direction::Horizontal);
    assert_eq!(ws.splits[0].ratio, viewdock::RATIO_ONE);
}

#[test]
fn layout_of_root_after_update() {
    let mut ws = two_dock_workspace();
    ws.update();
    assert_eq!(ws.splits[0].rect, Rect::new(0, 0, 1000, 800));
    assert_eq!(ws.splits[0].left_docks.rect, Rect::new(0, 0, 500, 800));
    assert_eq!(ws.splits[0].right_docks.rect, Rect::new(500, 0, 500, 800));
}

#[test]
fn update_clears_unreached_nodes() {
    let mut ws = two_dock_workspace();
    let mut orphan = Split::new(Direction::Vertical, 5000, SplitHandle(9));
    orphan.rect = Rect::new(1, 2, 3, 4);
    orphan.left_docks.rect = Rect::new(1, 2, 3, 4);
    ws.splits.push(orphan);
    ws.update();
    assert_eq!(ws.splits[1].rect, Rect::new(0, 0, 0, 0));
    assert_eq!(ws.splits[1].left_docks.rect, Rect::new(0, 0, 0, 0));
    assert_eq!(ws.splits[0].rect, Rect::new(0, 0, 1000, 800));
}

#[test]
fn side_with_child_counts_as_occupied() {
    let mut s = Split::new(Direction::Vertical, 0, SplitHandle(0));
    s.right = Some(SplitHandle(4));
    assert!(s.no_split(Direction::Horizontal, DockHandle(8)));
    assert_eq!(s.left_docks.docks[0].handle, DockHandle(8));
    assert_eq!(s.ratio, 5000);
    assert_eq!(s.direction, Direction::Vertical);

    let mut t = Split::new(Direction::Full, 0, SplitHandle(0));
    t.left = Some(SplitHandle(4));
    assert!(t.no_split(Direction::Horizontal, DockHandle(8)));
    assert_eq!(t.right_docks.docks[0].handle, DockHandle(8));
    assert_eq!(t.ratio, 5000);
    assert_eq!(t.direction, Direction::Horizontal);
}

#[test]
fn delete_removes_dock_in_child() {
    let mut ws = two_dock_workspace();
    ws.split_by_dock_handle(Direction::Horizontal, DockHandle(1), DockHandle(3));
    ws.delete_by_handle(DockHandle(1));
    let handles: Vec<u64> = ws.get_docks().iter().map(|d| d.handle.0).collect();
    assert!(!handles.contains(&1));
    assert_eq!(handles.len(), 2);
    assert_eq!(ws.window_border, 4);
}

#[test]
fn split_by_dock_handle_into_empty_side_keeps_length() {
    let mut ws = Workspace::new(Rect::new(0, 0, 100, 100)).unwrap();
    ws.split(DockHandle(1), Direction::Vertical);
    ws.split_by_dock_handle(Direction::Horizontal, DockHandle(1), DockHandle(2));
    assert_eq!(ws.splits.len(), 1);
    assert_eq!(ws.splits[0].right_docks.docks[0].handle, DockHandle(2));
    assert_eq!(ws.splits[0].ratio, 5000);
    assert_eq!(ws.splits[0].direction, Direction::Vertical);
}

#[test]
fn split_by_dock_handle_right_side_moves_docks_left() {
    let mut ws = two_dock_workspace();
    ws.split_by_dock_handle(Direction::Horizontal, DockHandle(2), DockHandle(3));
    assert_eq!(ws.splits.len(), 2);
    let root = &ws.splits[0];
    assert_eq!(root.right, Some(SplitHandle(3)));
    assert_eq!(root.right_docks.docks.len(), 0);
    let n = &ws.splits[1];
    assert_eq!(n.left_docks.docks[0].handle, DockHandle(2));
    assert_eq!(n.right_docks.docks[0].handle, DockHandle(3));
    assert_eq!(n.ratio, 5000);
}

#[test]
fn load_rejects_unusable_root_rect() {
    let mut ws = two_dock_workspace();
    ws.rect = Rect::new(-5, 0, 10, 10);
    assert!(Workspace::load(&ws.save()).is_none());
}
