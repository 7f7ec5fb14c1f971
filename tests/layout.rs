use xr3wm::container::Node;
use xr3wm::layout::{HSplitLayout, Layout, LayoutMsg, MoveOp, Rect, SplitLayout, VSplitLayout};

fn area() -> Rect {
    Rect { x: 10, y: 20, width: 100, height: 50 }
}

fn windows(n: u64) -> Vec<Node> {
    (0..n).map(|i| Node::Window(i + 1)).collect()
}

#[test]
fn hsplit_steps_left_and_right() {
    let l = HSplitLayout;
    assert_eq!(l.move_focus(0, 3, MoveOp::Right), (1, false));
    assert_eq!(l.move_focus(2, 3, MoveOp::Right), (0, true));
    assert_eq!(l.move_focus(1, 3, MoveOp::Left), (0, false));
    assert_eq!(l.move_focus(0, 3, MoveOp::Left), (2, true));
}

#[test]
fn hsplit_hands_other_directions_up() {
    let l = HSplitLayout;
    assert_eq!(l.move_focus(1, 3, MoveOp::Up), (1, true));
    assert_eq!(l.move_focus(1, 3, MoveOp::Down), (1, true));
    assert_eq!(l.move_focus(1, 3, MoveOp::Master), (1, true));
}

#[test]
fn vsplit_steps_up_and_down() {
    let l = VSplitLayout;
    assert_eq!(l.move_focus(0, 2, MoveOp::Down), (1, false));
    assert_eq!(l.move_focus(1, 2, MoveOp::Down), (0, true));
    assert_eq!(l.move_focus(0, 2, MoveOp::Up), (1, true));
    assert_eq!(l.move_focus(0, 2, MoveOp::Left), (0, true));
    assert_eq!(l.move_focus(0, 2, MoveOp::Master), (0, true));
}

#[test]
fn single_slot_wraps_onto_itself() {
    assert_eq!(HSplitLayout.move_focus(0, 1, MoveOp::Right), (0, true));
    assert_eq!(VSplitLayout.move_focus(0, 1, MoveOp::Up), (0, true));
}

#[test]
fn hsplit_columns_cover_the_width() {
    let rects = HSplitLayout.apply(area(), &windows(3));
    assert_eq!(rects.len(), 3);
    assert_eq!(rects[0], Rect { x: 10, y: 20, width: 33, height: 50 });
    assert_eq!(rects[1], Rect { x: 43, y: 20, width: 33, height: 50 });
    assert_eq!(rects[2], Rect { x: 76, y: 20, width: 34, height: 50 });
    let total: u32 = rects.iter().map(|r| r.width).sum();
    assert_eq!(total, 100);
    for i in 0..2 {
        assert_eq!(rects[i].x + rects[i].width, rects[i + 1].x);
    }
}

#[test]
fn vsplit_rows_cover_the_height() {
    let rects = VSplitLayout.apply(area(), &windows(4));
    assert_eq!(rects.len(), 4);
    let ys: Vec<u32> = rects.iter().map(|r| r.y).collect();
    assert_eq!(ys, vec![20, 32, 44, 56]);
    let hs: Vec<u32> = rects.iter().map(|r| r.height).collect();
    assert_eq!(hs, vec![12, 12, 12, 14]);
    assert!(rects.iter().all(|r| r.x == 10 && r.width == 100));
}

#[test]
fn one_slot_takes_the_whole_area() {
    assert_eq!(HSplitLayout.apply(area(), &windows(1)), vec![area()]);
    assert_eq!(VSplitLayout.apply(area(), &windows(1)), vec![area()]);
}

#[test]
fn no_slots_give_no_rectangles() {
    assert!(HSplitLayout.apply(area(), &Vec::new()).is_empty());
    assert!(VSplitLayout.apply(area(), &Vec::new()).is_empty());
}

#[test]
fn more_slots_than_pixels() {
    let small = Rect { x: 0, y: 0, width: 2, height: 2 };
    let rects = HSplitLayout.apply(small, &windows(3));
    let widths: Vec<u32> = rects.iter().map(|r| r.width).collect();
    assert_eq!(widths, vec![0, 0, 2]);
    assert!(rects.iter().all(|r| r.x == 0));
}

#[test]
fn area_at_the_edge_of_the_coordinate_range() {
    let edge = Rect { x: u32::MAX - 10, y: 0, width: 10, height: 5 };
    let rects = HSplitLayout.apply(edge, &windows(3));
    assert_eq!(rects[2].x + rects[2].width, u32::MAX);
}

#[test]
fn right_n_times_comes_back() {
    let l = HSplitLayout;
    for n in 1..6usize {
        for start in 0..n {
            let mut curr = start;
            for _ in 0..n {
                curr = l.move_focus(curr, n, MoveOp::Right).0;
            }
            assert_eq!(curr, start);
            for _ in 0..n {
                curr = l.move_focus(curr, n, MoveOp::Left).0;
            }
            assert_eq!(curr, start);
        }
    }
}

#[test]
fn layouts_report_their_names() {
    assert_eq!(HSplitLayout.name(), "Horizontal");
    assert_eq!(VSplitLayout.name(), "Vertical");
    assert_eq!(HSplitLayout::new().name(), "Horizontal");
    assert_eq!(VSplitLayout::new().name(), "Vertical");
}

#[test]
fn new_builds_the_matching_layout() {
    assert_eq!(HSplitLayout::new(), SplitLayout::Horizontal(HSplitLayout));
    assert_eq!(VSplitLayout::new(), SplitLayout::Vertical(VSplitLayout));
}

#[test]
fn split_layout_dispatches() {
    let h = HSplitLayout::new();
    let v = VSplitLayout::new();
    assert_eq!(h.move_focus(0, 2, MoveOp::Right), (1, false));
    assert_eq!(v.move_focus(0, 2, MoveOp::Right), (0, true));
    assert_eq!(h.apply(area(), &windows(2))[1].x, 60);
    assert_eq!(v.apply(area(), &windows(2))[1].y, 45);
}

#[test]
fn messages_change_nothing() {
    let mut h = HSplitLayout::new();
    h.send_msg(LayoutMsg::Increase);
    h.send_msg(LayoutMsg::DecreaseMaster);
    h.send_msg(LayoutMsg::Custom("wide".to_string()));
    assert_eq!(h, HSplitLayout::new());
    let mut v = VSplitLayout::new();
    v.send_msg(LayoutMsg::IncreaseMaster);
    v.send_msg(LayoutMsg::Decrease);
    assert_eq!(v, VSplitLayout::new());
}
