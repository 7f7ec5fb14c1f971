use xr3wm::container::Window;
use xr3wm::layout::{HSplitLayout, MoveOp, Rect, VSplitLayout};
use xr3wm::workspaces::{Workspace, WorkspaceConfig, Workspaces};

fn config(tag: &str, screen: usize) -> WorkspaceConfig {
    WorkspaceConfig { tag: tag.to_string(), screen, layout: HSplitLayout::new() }
}

#[test]
fn new_workspace_is_empty_and_hidden() {
    let ws = Workspace::new("web".to_string(), 1, VSplitLayout::new());
    assert_eq!(ws.tag(), "web");
    assert_eq!(ws.screen(), 1);
    assert!(!ws.visible());
    assert_eq!(ws.focused_window(), 0);
    assert!(!ws.contains(3));
}

#[test]
fn add_window_focuses_it() {
    let mut ws = Workspace::new("a".to_string(), 0, HSplitLayout::new());
    ws.add_window(5);
    assert_eq!(ws.focused_window(), 5);
    ws.add_window(6);
    assert_eq!(ws.focused_window(), 6);
    assert!(ws.contains(5));
    assert!(ws.contains(6));
    assert!(!ws.is_unmanaged(5));
    let area = Rect { x: 0, y: 0, width: 100, height: 40 };
    assert_eq!(
        ws.layout_windows(area),
        vec![
            (5, Rect { x: 0, y: 0, width: 50, height: 40 }),
            (6, Rect { x: 50, y: 0, width: 50, height: 40 }),
        ]
    );
}

#[test]
fn add_window_goes_next_to_focused_window_inside_container() {
    let mut ws = Workspace::new("a".to_string(), 0, HSplitLayout::new());
    ws.add_window(5);
    ws.add_window(6);
    ws.add_container(1);
    ws.add_window(7);
    let area = Rect { x: 0, y: 0, width: 100, height: 40 };
    assert_eq!(
        ws.layout_windows(area),
        vec![
            (5, Rect { x: 0, y: 0, width: 50, height: 40 }),
            (6, Rect { x: 50, y: 0, width: 50, height: 20 }),
            (7, Rect { x: 50, y: 20, width: 50, height: 20 }),
        ]
    );
}

#[test]
fn move_focus_without_focus_does_nothing() {
    let mut ws = Workspace::new("a".to_string(), 0, HSplitLayout::new());
    assert_eq!(ws.move_focus(MoveOp::Left), None);
    assert_eq!(ws.focused_window(), 0);
}

#[test]
fn move_focus_reports_previous_window() {
    let mut ws = Workspace::new("a".to_string(), 0, HSplitLayout::new());
    ws.add_window(5);
    ws.add_window(6);
    assert_eq!(ws.move_focus(MoveOp::Left), Some(6));
    assert_eq!(ws.focused_window(), 5);
    assert_eq!(ws.move_focus(MoveOp::Left), Some(5));
    assert_eq!(ws.focused_window(), 5);
}

#[test]
fn move_focus_climbs_out_of_container() {
    let mut ws = Workspace::new("a".to_string(), 0, HSplitLayout::new());
    ws.add_window(5);
    ws.add_window(6);
    ws.add_container(1);
    ws.add_window(7);
    assert_eq!(ws.move_focus(MoveOp::Up), Some(7));
    assert_eq!(ws.focused_window(), 6);
    assert_eq!(ws.move_focus(MoveOp::Left), Some(6));
    assert_eq!(ws.focused_window(), 5);
}

#[test]
fn move_window_swaps_windows() {
    let mut ws = Workspace::new("a".to_string(), 0, HSplitLayout::new());
    ws.add_window(5);
    ws.add_window(6);
    ws.move_window(MoveOp::Left);
    let area = Rect { x: 0, y: 0, width: 10, height: 10 };
    let order: Vec<Window> = ws.layout_windows(area).iter().map(|p| p.0).collect();
    assert_eq!(order, vec![6, 5]);
    assert_eq!(ws.focused_window(), 6);
}

#[test]
fn add_container_without_focus_sets_root_layout() {
    let mut ws = Workspace::new("a".to_string(), 0, HSplitLayout::new());
    ws.add_container(1);
    ws.add_window(5);
    ws.add_window(6);
    let area = Rect { x: 0, y: 0, width: 10, height: 10 };
    let rects: Vec<Rect> = ws.layout_windows(area).iter().map(|p| p.1).collect();
    assert_eq!(rects[1], Rect { x: 0, y: 5, width: 10, height: 5 });
}

#[test]
fn workspaces_fill_screens_without_a_workspace() {
    let configs = vec![config("1", 0), config("2", 0), config("3", 0), config("4", 1)];
    let wss = Workspaces::new(&configs, 3);
    assert_eq!(wss.index(), 0);
    assert_eq!(wss.curr().tag(), "1");
    let screens: Vec<usize> = wss.all().iter().map(|w| w.screen()).collect();
    assert_eq!(screens, vec![0, 2, 0, 1]);
    let shown: Vec<bool> = wss.all().iter().map(|w| w.visible()).collect();
    assert_eq!(shown, vec![true, true, false, true]);
    assert!(!wss.contains(1));
    assert!(!wss.is_unmanaged(1));
}

#[test]
fn workspaces_keep_preferred_screens() {
    let configs = vec![config("a", 1), config("b", 0), config("c", 1), config("d", 5)];
    let wss = Workspaces::new(&configs, 2);
    let screens: Vec<usize> = wss.all().iter().map(|w| w.screen()).collect();
    assert_eq!(screens, vec![1, 0, 1, 5]);
    let shown: Vec<bool> = wss.all().iter().map(|w| w.visible()).collect();
    assert_eq!(shown, vec![true, true, false, false]);
}

#[test]
fn workspaces_run_out_of_spare_workspaces() {
    let configs = vec![config("a", 0), config("b", 0)];
    let wss = Workspaces::new(&configs, 4);
    let screens: Vec<usize> = wss.all().iter().map(|w| w.screen()).collect();
    assert_eq!(screens, vec![0, 1]);
    let shown: Vec<bool> = wss.all().iter().map(|w| w.visible()).collect();
    assert_eq!(shown, vec![true, true]);
}

#[test]
fn workspaces_with_no_screens_show_nothing() {
    let configs = vec![config("a", 0)];
    let wss = Workspaces::new(&configs, 0);
    assert!(!wss.curr().visible());
    assert_eq!(wss.curr().screen(), 0);
}

#[test]
fn workspaces_single_screen_shows_first() {
    let configs = vec![config("1", 0), config("2", 0)];
    let mut wss = Workspaces::new(&configs, 1);
    assert!(wss.curr().visible());
    assert!(!wss.all()[1].visible());
    assert_eq!(wss.curr().screen(), 0);
    wss.curr_mut().add_window(9);
    assert!(wss.contains(9));
    assert!(!wss.all()[1].contains(9));
    assert_eq!(wss.curr().focused_window(), 9);
}
