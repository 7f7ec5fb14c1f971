use vstd::prelude::*;

use crate::container::Window;
use crate::layout::{LayoutMsg, MoveOp};
use crate::workspaces::{container_added, focus_shifted, window_shifted, Workspaces};

verus! {

/// A user command, bound to a key.
pub enum Cmd {
    Exec(String),
    SwitchWorkspace(usize),
    SwitchScreen(usize),
    MoveFocus(MoveOp),
    MoveWindow(MoveOp),
    MoveToWorkspace(usize),
    MoveToScreen(usize),
    NestContainer(usize),
    SendLayoutMsg(LayoutMsg),
    Reload,
    Exit,
    KillClient,
}

/// What the display side has to do once a command has changed the
/// workspaces.
pub enum CmdEffect {
    /// Nothing to show.
    Nothing,
    /// Start this command line as a detached process.
    Spawn(String),
    /// Take the focus highlight off the given window, if any, and focus the
    /// current workspace's focused window.
    Refocus(Option<Window>),
    /// Lay the current workspace out again.
    Redraw,
    /// Close the connection to the display and stop.
    Exit,
}

impl Cmd {
    /// Applies the command to `workspaces` and says what is left to do on
    /// the display.
    pub fn call(&self, workspaces: &mut Workspaces) -> (r: CmdEffect)
        requires
            old(workspaces).wf(),
        ensures
            final(workspaces).wf(),
            final(workspaces).current() == old(workspaces).current(),
            final(workspaces).spaces().len() == old(workspaces).spaces().len(),
            forall|i: int|
                0 <= i < old(workspaces).spaces().len() && i != old(workspaces).current()
                    ==> #[trigger] final(workspaces).spaces()[i] == old(workspaces).spaces()[i],
            ({
                let a = old(workspaces).spaces()[old(workspaces).current()];
                let b = final(workspaces).spaces()[old(workspaces).current()];
                match self {
                    Cmd::Exec(line) => r matches CmdEffect::Spawn(s) && s@ == line@ && b == a,
                    Cmd::MoveFocus(op) => if a.focus_spec() == 0 {
                        r is Nothing && b == a
                    } else {
                        r matches CmdEffect::Refocus(prev) && focus_shifted(a, b, *op, prev)
                    },
                    Cmd::MoveWindow(op) => r is Redraw && window_shifted(a, b, *op),
                    Cmd::NestContainer(index) => r is Nothing && container_added(a, b, *index),
                    Cmd::Exit => r is Exit && b == a,
                    _ => r is Nothing && b == a,
                }
            }),
    {
        match self {
            Cmd::Exec(line) => CmdEffect::Spawn(line.clone()),
            Cmd::MoveFocus(op) => {
                if workspaces.curr().focused_window() == 0 {
                    CmdEffect::Nothing
                } else {
                    let prev = workspaces.curr_mut().move_focus(*op);
                    CmdEffect::Refocus(prev)
                }
            },
            Cmd::MoveWindow(op) => {
                workspaces.curr_mut().move_window(*op);
                CmdEffect::Redraw
            },
            Cmd::NestContainer(index) => {
                workspaces.curr_mut().add_container(*index);
                CmdEffect::Nothing
            },
            Cmd::Exit => CmdEffect::Exit,
            _ => CmdEffect::Nothing,
        }
    }
}

/// A rule for newly mapped windows of one class.
pub struct ManageHook {
    pub class_name: String,
    pub cmd: CmdManage,
}

/// What a `ManageHook` does with a window.
pub enum CmdManage {
    Move(usize),
    Float,
    Fullscreen,
    Ignore,
}

impl CmdManage {
    /// Applies the rule to `window`; no rule has an effect yet.
    pub fn call(&self, workspaces: &mut Workspaces, window: Window)
        ensures
            final(workspaces).spaces() == old(workspaces).spaces(),
            final(workspaces).current() == old(workspaces).current(),
    {
    }
}

/// A piece of status information for a status bar.
pub enum LogInfo {
    Workspaces(Vec<String>, usize, Vec<usize>, Vec<bool>),
    Title(String),
    Layout(String),
}

/// Which piece of status information to gather.
pub enum CmdLogHook {
    Workspaces,
    Title,
    Layout,
}

impl CmdLogHook {
    /// Gathers the piece of status information; each one is an empty
    /// title for now.
    pub fn call(&self, workspaces: &Workspaces) -> (r: LogInfo)
        ensures
            r matches LogInfo::Title(t) && t@.len() == 0,
    {
        LogInfo::Title(String::new())
    }
}

/// Status output: what to gather, and how to turn it into a line.
pub struct LogHook<F> {
    pub logs: Vec<CmdLogHook>,
    pub output: F,
}

impl<F> LogHook<F> {
    /// Produces the status line; nothing is gathered or written yet.
    pub fn call(&mut self, workspaces: &Workspaces)
        ensures
            final(self).logs@ == old(self).logs@,
    {
    }
}

} // verus!
