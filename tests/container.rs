use xr3wm::container::{Container, Node, Window};
use xr3wm::layout::{HSplitLayout, MoveOp, Rect, SplitLayout, VSplitLayout};

fn leaf_ids(c: &Container) -> Vec<Option<Window>> {
    c.entries()
        .iter()
        .map(|n| match n {
            Node::Window(w) => Some(*w),
            Node::SplitContainer(_) => None,
        })
        .collect()
}

fn row(ids: &[Window]) -> Container {
    let mut c = Container::new(HSplitLayout::new());
    for &w in ids {
        c.add_window(w);
    }
    c
}

fn sub(c: &Container, i: usize) -> &Container {
    match &c.entries()[i] {
        Node::SplitContainer(s) => s,
        Node::Window(w) => panic!("entry {} is window {}", i, w),
    }
}

/// Root side by side: 5, then a stacked container of 6 and 7.
fn nested_tree() -> Container {
    let mut c = row(&[5, 6]);
    c.nest_container(VSplitLayout::new());
    if let Some((_, inner)) = c.find_window(6) {
        inner.add_window(7);
    }
    c
}

#[test]
fn add_window_on_empty_becomes_only_entry() {
    let mut c = Container::new(HSplitLayout::new());
    c.add_window(3);
    assert_eq!(leaf_ids(&c), vec![Some(3)]);
    assert_eq!(c.focus(), 0);
    assert_eq!(c.count(), 1);
}

#[test]
fn add_window_inserts_after_focus() {
    let mut c = row(&[5, 6]);
    c.move_focus(MoveOp::Left);
    assert_eq!(c.focus(), 0);
    c.add_window(9);
    assert_eq!(leaf_ids(&c), vec![Some(5), Some(9), Some(6)]);
    assert_eq!(c.focus(), 1);
}

#[test]
fn move_focus_right_then_stops_at_root_edge() {
    let mut c = row(&[5, 6, 7]);
    c.move_focus(MoveOp::Left);
    assert_eq!(c.focus(), 1);
    assert_eq!(c.move_focus(MoveOp::Right), 7);
    assert_eq!(c.focus(), 2);
    assert_eq!(c.move_focus(MoveOp::Right), 7);
    assert_eq!(c.focus(), 2);
}

#[test]
fn move_focus_across_axis_is_ignored_at_root() {
    let mut c = row(&[5, 6, 7]);
    assert_eq!(c.move_focus(MoveOp::Up), 7);
    assert_eq!(c.move_focus(MoveOp::Master), 7);
    assert_eq!(c.focus(), 2);
}

#[test]
fn nest_container_wraps_focused_entry() {
    let mut c = row(&[5]);
    c.nest_container(VSplitLayout::new());
    assert_eq!(c.count(), 1);
    assert_eq!(c.focus(), 0);
    let inner = sub(&c, 0);
    assert_eq!(leaf_ids(inner), vec![Some(5)]);
    assert_eq!(inner.focus(), 0);
    assert_eq!(inner.layout(), VSplitLayout::new());
    assert_eq!(c.layout(), HSplitLayout::new());
}

#[test]
fn nest_container_on_empty_switches_layout() {
    let mut c = Container::new(HSplitLayout::new());
    c.nest_container(VSplitLayout::new());
    assert_eq!(c.count(), 0);
    assert_eq!(c.layout(), VSplitLayout::new());
}

#[test]
fn nest_container_keeps_other_entries() {
    let mut c = row(&[5, 6, 7]);
    c.move_focus(MoveOp::Left);
    c.nest_container(VSplitLayout::new());
    assert_eq!(leaf_ids(&c), vec![Some(5), None, Some(7)]);
    assert_eq!(leaf_ids(sub(&c, 1)), vec![Some(6)]);
    assert_eq!(c.focused_window(), 6);
}

#[test]
fn remove_at_focused_entry_moves_focus_back() {
    let mut c = row(&[5, 6, 7]);
    c.move_focus(MoveOp::Left);
    c.remove_at(1);
    assert_eq!(leaf_ids(&c), vec![Some(5), Some(7)]);
    assert_eq!(c.focus(), 0);
}

#[test]
fn remove_at_first_entry_keeps_focus_index() {
    let mut c = row(&[5, 6]);
    c.move_focus(MoveOp::Left);
    c.remove_at(0);
    assert_eq!(leaf_ids(&c), vec![Some(6)]);
    assert_eq!(c.focus(), 0);
    c.remove_at(0);
    assert_eq!(c.count(), 0);
    assert_eq!(c.focus(), 0);
}

#[test]
fn remove_at_later_entry_moves_focus_back() {
    let mut c = row(&[5, 6, 7]);
    c.move_focus(MoveOp::Left);
    c.remove_at(2);
    assert_eq!(leaf_ids(&c), vec![Some(5), Some(6)]);
    assert_eq!(c.focus(), 0);
}

#[test]
fn remove_at_earlier_entry_while_last_focused_strands_focus() {
    let mut c = row(&[5, 6, 7]);
    assert_eq!(c.focus(), 2);
    c.remove_at(0);
    assert_eq!(leaf_ids(&c), vec![Some(6), Some(7)]);
    assert_eq!(c.focus(), 2);
}

#[test]
fn focus_stays_in_range_through_adds_and_removes() {
    let mut c = Container::new(VSplitLayout::new());
    for w in 1..6 {
        c.add_window(w);
        assert!(c.focus() < c.count());
    }
    c.remove_window(5);
    assert!(c.focus() < c.count());
    c.move_focus(MoveOp::Up);
    c.remove_window(3);
    assert!(c.focus() < c.count());
    c.add_window(8);
    c.remove_at(0);
    assert!(c.focus() < c.count());
    assert_eq!(leaf_ids(&c), vec![Some(2), Some(8), Some(4)]);
}

#[test]
fn add_then_remove_restores_entries_and_focus() {
    let mut c = row(&[5, 6, 7]);
    c.move_focus(MoveOp::Left);
    c.add_window(9);
    assert_eq!(leaf_ids(&c), vec![Some(5), Some(6), Some(9), Some(7)]);
    c.remove_window(9);
    assert_eq!(leaf_ids(&c), vec![Some(5), Some(6), Some(7)]);
    assert_eq!(c.focus(), 1);
}

#[test]
fn add_then_remove_on_empty() {
    let mut c = Container::new(HSplitLayout::new());
    c.add_window(4);
    c.remove_window(4);
    assert_eq!(c.count(), 0);
    assert_eq!(c.focus(), 0);
}

#[test]
fn remove_window_takes_first_match() {
    let mut c = row(&[5, 6, 5]);
    assert_eq!(c.index_of_window(5), 0);
    c.remove_window(5);
    assert_eq!(leaf_ids(&c), vec![Some(6), Some(5)]);
    assert_eq!(c.focus(), 2);
}

#[test]
fn contains_looks_at_this_level_only() {
    let c = nested_tree();
    assert!(c.contains(5));
    assert!(!c.contains(6));
    assert!(c.contains_rec(6));
    assert!(c.contains_rec(7));
    assert!(!c.contains_rec(8));
}

#[test]
fn focused_window_follows_focus_chain() {
    let c = nested_tree();
    assert_eq!(c.focus(), 1);
    assert_eq!(sub(&c, 1).focus(), 1);
    assert_eq!(c.focused_window(), 7);
}

#[test]
fn index_of_window_at_level() {
    let c = row(&[4, 5, 6]);
    assert_eq!(c.index_of_window(6), 2);
}

#[test]
fn find_window_finds_owning_container() {
    let mut c = nested_tree();
    match c.find_window(7) {
        Some((i, inner)) => {
            assert_eq!(i, 1);
            assert_eq!(leaf_ids(inner), vec![Some(6), Some(7)]);
        },
        None => panic!("7 not found"),
    }
    match c.find_window(5) {
        Some((i, owner)) => {
            assert_eq!(i, 0);
            assert_eq!(owner.count(), 2);
        },
        None => panic!("5 not found"),
    }
    assert!(c.find_window(9).is_none());
}

#[test]
fn find_window_changes_land_in_the_tree() {
    let mut c = nested_tree();
    if let Some((_, inner)) = c.find_window(6) {
        inner.add_window(8);
    }
    assert_eq!(leaf_ids(sub(&c, 1)), vec![Some(6), Some(7), Some(8)]);
    assert!(c.contains_rec(8));
}

#[test]
fn window_path_leads_to_owner() {
    let c = nested_tree();
    assert_eq!(c.window_path(5), Some(vec![]));
    assert_eq!(c.window_path(7), Some(vec![1]));
    assert_eq!(c.window_path(9), None);
}

#[test]
fn apply_layout_places_every_window_once() {
    let c = nested_tree();
    let area = Rect { x: 0, y: 0, width: 100, height: 60 };
    let placed = c.apply_layout(area);
    assert_eq!(
        placed,
        vec![
            (5, Rect { x: 0, y: 0, width: 50, height: 60 }),
            (6, Rect { x: 50, y: 0, width: 50, height: 30 }),
            (7, Rect { x: 50, y: 30, width: 50, height: 30 }),
        ]
    );
    let mut ids: Vec<Window> = placed.iter().map(|p| p.0).collect();
    ids.sort();
    ids.dedup();
    assert_eq!(ids.len(), 3);
    for (_, r) in placed {
        assert!(r.x >= area.x && r.x + r.width <= area.x + area.width);
        assert!(r.y >= area.y && r.y + r.height <= area.y + area.height);
    }
}

#[test]
fn apply_layout_on_empty_tree() {
    let c = Container::new(HSplitLayout::new());
    assert!(c.apply_layout(Rect { x: 0, y: 0, width: 10, height: 10 }).is_empty());
}

#[test]
fn move_focus_at_climbs_to_parent() {
    let mut c = nested_tree();
    assert_eq!(c.move_focus_at(&vec![1], MoveOp::Up), 6);
    assert_eq!(sub(&c, 1).focus(), 0);
    assert_eq!(c.move_focus_at(&vec![1], MoveOp::Left), 5);
    assert_eq!(c.focus(), 0);
    assert_eq!(sub(&c, 1).focus(), 0);
    assert_eq!(c.move_focus_at(&vec![], MoveOp::Right), 6);
}

#[test]
fn move_focus_at_stops_when_root_crosses() {
    let mut c = nested_tree();
    assert_eq!(c.move_focus_at(&vec![1], MoveOp::Right), 7);
    assert_eq!(c.focus(), 1);
    assert_eq!(sub(&c, 1).focus(), 1);
}

#[test]
fn move_window_swaps_with_neighbour() {
    let mut c = row(&[5, 6, 7]);
    c.move_focus(MoveOp::Left);
    c.move_focus(MoveOp::Left);
    assert_eq!(c.focus(), 0);
    c.move_window(MoveOp::Right);
    assert_eq!(leaf_ids(&c), vec![Some(6), Some(5), Some(7)]);
    assert_eq!(c.focus(), 1);
    assert_eq!(c.focused_window(), 5);
}

#[test]
fn move_window_at_root_edge_does_nothing() {
    let mut c = row(&[5, 6]);
    c.move_window(MoveOp::Right);
    assert_eq!(leaf_ids(&c), vec![Some(5), Some(6)]);
    assert_eq!(c.focus(), 1);
    c.move_window(MoveOp::Down);
    assert_eq!(leaf_ids(&c), vec![Some(5), Some(6)]);
}

#[test]
fn move_window_enters_neighbouring_container() {
    let mut c = row(&[5, 6]);
    c.nest_container(VSplitLayout::new());
    c.move_focus(MoveOp::Left);
    assert_eq!(c.focused_window(), 5);
    c.move_window(MoveOp::Right);
    assert_eq!(c.count(), 1);
    assert_eq!(c.focus(), 0);
    let inner = sub(&c, 0);
    assert_eq!(leaf_ids(inner), vec![Some(6), Some(5)]);
    assert_eq!(inner.focus(), 1);
    assert_eq!(c.focused_window(), 5);
}

#[test]
fn move_window_at_hands_move_to_parent() {
    let mut c = nested_tree();
    c.move_window_at(&vec![1], MoveOp::Left);
    assert_eq!(leaf_ids(&c), vec![Some(5), Some(7), None]);
    assert_eq!(c.focus(), 1);
    assert_eq!(leaf_ids(sub(&c, 2)), vec![Some(6)]);
    assert_eq!(sub(&c, 2).focus(), 0);
    assert_eq!(c.focused_window(), 7);
}

#[test]
fn move_window_out_of_container_goes_after_it() {
    let mut c = row(&[1, 2]);
    c.nest_container(VSplitLayout::new());
    if let Some((_, inner)) = c.find_window(2) {
        inner.add_window(3);
    }
    assert_eq!(c.move_focus_at(&vec![1], MoveOp::Up), 2);
    c.move_focus(MoveOp::Left);
    assert_eq!(c.focus(), 0);
    c.move_window_at(&vec![1], MoveOp::Right);
    assert_eq!(leaf_ids(&c), vec![Some(1), None, Some(2)]);
    assert_eq!(leaf_ids(sub(&c, 1)), vec![Some(3)]);
    assert_eq!(c.focus(), 2);
    let mut all: Vec<Window> =
        c.apply_layout(Rect { x: 0, y: 0, width: 90, height: 90 }).iter().map(|p| p.0).collect();
    all.sort();
    assert_eq!(all, vec![1, 2, 3]);
}

#[test]
fn move_window_alone_in_container_stays() {
    let mut c = row(&[5, 6]);
    c.nest_container(VSplitLayout::new());
    c.move_window_at(&vec![1], MoveOp::Left);
    assert_eq!(leaf_ids(&c), vec![Some(5), None]);
    assert_eq!(leaf_ids(sub(&c, 1)), vec![Some(6)]);
    assert_eq!(c.focus(), 1);
}

#[test]
fn move_focus_at_reports_window_of_level_that_moved() {
    let mut c = row(&[1, 2]);
    c.nest_container(HSplitLayout::new());
    if let Some((_, inner)) = c.find_window(2) {
        inner.add_window(3);
    }
    if let Some((_, inner)) = c.find_window(3) {
        inner.nest_container(VSplitLayout::new());
    }
    assert_eq!(c.window_path(3), Some(vec![1, 1]));
    c.move_focus(MoveOp::Left);
    assert_eq!(c.focused_window(), 1);
    assert_eq!(c.move_focus_at(&vec![1, 1], MoveOp::Left), 2);
    assert_eq!(c.focus(), 0);
    assert_eq!(sub(&c, 1).focus(), 0);
}

#[test]
fn iter_skips_containers() {
    let mut c = row(&[5, 6, 7]);
    c.move_focus(MoveOp::Left);
    c.nest_container(HSplitLayout::new());
    let mut it = c.iter();
    assert_eq!(it.next(), Some((0, 5)));
    assert_eq!(it.next(), Some((2, 7)));
    assert_eq!(it.next(), None);
    assert_eq!(it.next(), None);
}

#[test]
fn count_counts_this_level() {
    let c = nested_tree();
    assert_eq!(c.count(), 2);
    assert_eq!(sub(&c, 1).count(), 2);
    assert_eq!(sub(&c, 1).layout(), SplitLayout::Vertical(VSplitLayout));
}
