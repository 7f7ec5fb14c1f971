use xr3wm::commands::{Cmd, CmdEffect, CmdLogHook, CmdManage, LogHook, LogInfo};
use xr3wm::layout::{HSplitLayout, LayoutMsg, MoveOp, Rect};
use xr3wm::workspaces::{WorkspaceConfig, Workspaces};

fn workspaces() -> Workspaces {
    let configs = vec![
        WorkspaceConfig { tag: "1".to_string(), screen: 0, layout: HSplitLayout::new() },
        WorkspaceConfig { tag: "2".to_string(), screen: 0, layout: HSplitLayout::new() },
    ];
    Workspaces::new(&configs, 1)
}

fn order(wss: &Workspaces) -> Vec<u64> {
    let area = Rect { x: 0, y: 0, width: 10, height: 10 };
    wss.curr().layout_windows(area).iter().map(|p| p.0).collect()
}

#[test]
fn exec_asks_to_spawn() {
    let mut wss = workspaces();
    match Cmd::Exec("xterm -e top".to_string()).call(&mut wss) {
        CmdEffect::Spawn(line) => assert_eq!(line, "xterm -e top"),
        _ => panic!("expected a spawn"),
    }
}

#[test]
fn move_focus_without_focused_window_does_nothing() {
    let mut wss = workspaces();
    assert!(matches!(Cmd::MoveFocus(MoveOp::Left).call(&mut wss), CmdEffect::Nothing));
}

#[test]
fn move_focus_refocuses() {
    let mut wss = workspaces();
    wss.curr_mut().add_window(5);
    wss.curr_mut().add_window(6);
    assert!(matches!(
        Cmd::MoveFocus(MoveOp::Left).call(&mut wss),
        CmdEffect::Refocus(Some(6))
    ));
    assert_eq!(wss.curr().focused_window(), 5);
}

#[test]
fn move_window_redraws() {
    let mut wss = workspaces();
    wss.curr_mut().add_window(5);
    wss.curr_mut().add_window(6);
    assert!(matches!(Cmd::MoveWindow(MoveOp::Left).call(&mut wss), CmdEffect::Redraw));
    assert_eq!(order(&wss), vec![6, 5]);
}

#[test]
fn nest_container_nests_focused_window() {
    let mut wss = workspaces();
    wss.curr_mut().add_window(5);
    wss.curr_mut().add_window(6);
    assert!(matches!(Cmd::NestContainer(1).call(&mut wss), CmdEffect::Nothing));
    wss.curr_mut().add_window(7);
    let area = Rect { x: 0, y: 0, width: 10, height: 10 };
    let rects: Vec<Rect> = wss.curr().layout_windows(area).iter().map(|p| p.1).collect();
    assert_eq!(rects[2], Rect { x: 5, y: 5, width: 5, height: 5 });
}

#[test]
fn exit_asks_to_exit() {
    let mut wss = workspaces();
    assert!(matches!(Cmd::Exit.call(&mut wss), CmdEffect::Exit));
}

#[test]
fn unhandled_commands_do_nothing() {
    let mut wss = workspaces();
    wss.curr_mut().add_window(5);
    for cmd in vec![
        Cmd::SwitchWorkspace(2),
        Cmd::SwitchScreen(1),
        Cmd::MoveToWorkspace(2),
        Cmd::MoveToScreen(1),
        Cmd::SendLayoutMsg(LayoutMsg::Increase),
        Cmd::Reload,
        Cmd::KillClient,
    ] {
        assert!(matches!(cmd.call(&mut wss), CmdEffect::Nothing));
    }
    assert_eq!(order(&wss), vec![5]);
    assert_eq!(wss.index(), 0);
}

#[test]
fn log_hooks_give_empty_titles() {
    let wss = workspaces();
    for hook in vec![CmdLogHook::Workspaces, CmdLogHook::Title, CmdLogHook::Layout] {
        match hook.call(&wss) {
            LogInfo::Title(t) => assert!(t.is_empty()),
            _ => panic!("expected a title"),
        }
    }
    let mut log = LogHook { logs: vec![CmdLogHook::Title], output: |_: Vec<LogInfo>| String::new() };
    log.call(&wss);
    assert_eq!(log.logs.len(), 1);
}

#[test]
fn manage_hooks_leave_workspaces_alone() {
    let mut wss = workspaces();
    CmdManage::Move(2).call(&mut wss, 7);
    CmdManage::Float.call(&mut wss, 7);
    assert!(!wss.contains(7));
}
