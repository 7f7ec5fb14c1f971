use vstd::prelude::*;

use crate::container::{
    find_path, focus_moved, focus_result, lemma_find_path_valid, lemma_path_nonempty, lemma_same_outside_wf,
    lemma_sub_wf, nested, same_outside, sub_at, window_added, window_moved, Container, Node,
    Window,
};
use crate::layout::{HSplitLayout, MoveOp, Rect, SplitLayout, VSplitLayout};

verus! {

/// How a workspace is set up: its tag, the screen it prefers and the
/// layout of its root container.
pub struct WorkspaceConfig {
    pub tag: String,
    pub screen: usize,
    pub layout: SplitLayout,
}

/// One tree of managed windows, plus windows kept out of the layout, bound
/// to a screen.
pub struct Workspace {
    managed: Container,
    unmanaged: Vec<Window>,
    tag: String,
    screen: usize,
    visible: bool,
    focus: Window,
}

/// The layout that nest command `index` asks for: 0 is side by side,
/// anything else stacked.
pub open spec fn nest_layout(index: usize) -> SplitLayout {
    if index == 0 {
        SplitLayout::Horizontal(HSplitLayout)
    } else {
        SplitLayout::Vertical(VSplitLayout)
    }
}

impl Workspace {
    /// The managed tree.
    pub closed spec fn tree(&self) -> Container {
        self.managed
    }

    /// Windows kept out of the layout.
    pub closed spec fn floating(&self) -> Seq<Window> {
        self.unmanaged@
    }

    pub closed spec fn tag_spec(&self) -> Seq<char> {
        self.tag@
    }

    pub closed spec fn screen_spec(&self) -> usize {
        self.screen
    }

    pub closed spec fn is_visible(&self) -> bool {
        self.visible
    }

    /// The window this workspace last focused; 0 when none.
    pub closed spec fn focus_spec(&self) -> Window {
        self.focus
    }

    pub open spec fn wf(&self) -> bool {
        self.tree().wf()
    }

    /// `w` belongs to this workspace, floating or in the tree.
    pub open spec fn has(&self, w: Window) -> bool {
        self.floating().contains(w) || self.tree().leaves().contains(w)
    }

    pub fn new(tag: String, screen: usize, layout: SplitLayout) -> (r: Workspace)
        ensures
            r.wf(),
            r.tree().nodes() == Seq::<Node>::empty(),
            r.tree().layout_spec() == layout,
            r.floating() == Seq::<Window>::empty(),
            r.tag_spec() == tag@,
            r.screen_spec() == screen,
            !r.is_visible(),
            r.focus_spec() == 0,
    {
        Workspace {
            managed: Container::new(layout),
            unmanaged: Vec::new(),
            tag,
            screen,
            visible: false,
            focus: 0,
        }
    }

    /// Whether `window` belongs to this workspace.
    pub fn contains(&self, window: Window) -> (r: bool)
        ensures
            r == self.has(window),
    {
        self.is_unmanaged(window) || self.managed.contains_rec(window)
    }

    /// Whether `window` is one of the windows kept out of the layout.
    pub fn is_unmanaged(&self, window: Window) -> (r: bool)
        ensures
            r == self.floating().contains(window),
    {
        let mut i: usize = 0;
        while i < self.unmanaged.len()
            invariant
                i <= self.floating().len(),
                forall|j: int| 0 <= j < i ==> self.floating()[j] != window,
            decreases self.unmanaged.len() - i,
        {
            if self.unmanaged[i] == window {
                return true;
            }
            i += 1;
        }
        false
    }

    /// The window this workspace last focused; 0 when none.
    pub fn focused_window(&self) -> (r: Window)
        ensures
            r == self.focus_spec(),
    {
        self.focus
    }

    pub fn screen(&self) -> (r: usize)
        ensures
            r == self.screen_spec(),
    {
        self.screen
    }

    pub fn visible(&self) -> (r: bool)
        ensures
            r == self.is_visible(),
    {
        self.visible
    }

    pub fn tag(&self) -> (r: &String)
        ensures
            r@ == self.tag_spec(),
    {
        &self.tag
    }

    /// Every managed window with its rectangle on a screen of size `area`.
    pub fn layout_windows(&self, area: Rect) -> (r: Vec<(Window, Rect)>)
        requires
            area.fits(),
        ensures
            r@ == self.tree().placements(area),
    {
        self.managed.apply_layout(area)
    }
}

/// `b` is `a` after `Workspace::add_container(index)`.
pub open spec fn container_added(a: Workspace, b: Workspace, index: usize) -> bool {
    &&& a.same_but_tree_and_focus(b)
    &&& b.focus_spec() == a.focus_spec()
    &&& a.focus_spec() == 0 ==> nested(a.tree(), b.tree(), nest_layout(index))
    &&& a.focus_spec() != 0 ==> match find_path(a.tree(), a.focus_spec()) {
        Some(p) => same_outside(a.tree(), b.tree(), p) && nested(
            sub_at(a.tree(), p),
            sub_at(b.tree(), p),
            nest_layout(index),
        ),
        None => a.tree().same(b.tree()),
    }
}

/// `b` is `a` after `Workspace::move_focus(op)` returned `r`: the window
/// that lost the focus, or `None` when nothing moved.
pub open spec fn focus_shifted(a: Workspace, b: Workspace, op: MoveOp, r: Option<Window>) -> bool {
    &&& a.same_but_tree_and_focus(b)
    &&& match r {
        Some(prev) => {
            &&& prev == a.focus_spec()
            &&& prev != 0
            &&& find_path(a.tree(), prev) matches Some(p) && focus_moved(a.tree(), b.tree(), p, op)
            &&& focus_result(a.tree(), b.tree(), find_path(a.tree(), prev)->0, op) == Some(b.focus_spec())
        },
        None => {
            &&& a.focus_spec() == 0 || find_path(a.tree(), a.focus_spec()) is None
            &&& a.tree().same(b.tree())
            &&& b.focus_spec() == a.focus_spec()
        },
    }
}

/// `b` is `a` after `Workspace::move_window(op)`.
pub open spec fn window_shifted(a: Workspace, b: Workspace, op: MoveOp) -> bool {
    &&& a.same_but_tree_and_focus(b)
    &&& b.focus_spec() == a.focus_spec()
    &&& match find_path(a.tree(), a.focus_spec()) {
        Some(p) => window_moved(a.tree(), b.tree(), p, op),
        None => a.tree().same(b.tree()),
    }
}

impl Workspace {
    /// The other fields are as they were.
    pub open spec fn same_but_tree_and_focus(&self, other: Workspace) -> bool {
        &&& other.floating() == self.floating()
        &&& other.tag_spec() == self.tag_spec()
        &&& other.screen_spec() == self.screen_spec()
        &&& other.is_visible() == self.is_visible()
    }

    /// Adds `window` to the tree, right after the focused window in the
    /// container that holds it, or at the root when nothing is focused,
    /// and focuses it.
    pub fn add_window(&mut self, window: Window)
        requires
            old(self).wf(),
        ensures
            final(self).wf(),
            old(self).same_but_tree_and_focus(*final(self)),
            final(self).focus_spec() == window,
            old(self).focus_spec() == 0 ==> window_added(old(self).tree(), final(self).tree(), window),
            old(self).focus_spec() != 0 ==> match find_path(old(self).tree(), old(self).focus_spec()) {
                Some(p) => same_outside(old(self).tree(), final(self).tree(), p) && window_added(
                    sub_at(old(self).tree(), p),
                    sub_at(final(self).tree(), p),
                    window,
                ),
                None => old(self).tree().same(final(self).tree()),
            },
    {
        if self.focus != 0 {
            let ghost before = self.managed;
            let ghost p = find_path(before, self.focus)->0;
            proof {
                if find_path(before, self.focus) is Some {
                    lemma_find_path_valid(before, self.focus);
                    lemma_sub_wf(before, p);
                }
            }
            if let Some((_, c)) = self.managed.find_window(self.focus) {
                c.add_window(window);
            }
            proof {
                if find_path(before, self.focus) is Some {
                    lemma_same_outside_wf(before, self.managed, p);
                }
            }
        } else {
            self.managed.add_window(window);
        }
        self.focus = window;
    }

    /// Wraps the focused window, in the container that holds it, in a new
    /// container: side by side for `index` 0, stacked otherwise. With no
    /// focused window this happens at the root.
    pub fn add_container(&mut self, index: usize)
        requires
            old(self).wf(),
        ensures
            final(self).wf(),
            container_added(*old(self), *final(self), index),
    {
        let layout = if index == 0 {
            HSplitLayout::new()
        } else {
            VSplitLayout::new()
        };
        if self.focus != 0 {
            let ghost before = self.managed;
            let ghost p = find_path(before, self.focus)->0;
            proof {
                if find_path(before, self.focus) is Some {
                    lemma_find_path_valid(before, self.focus);
                    lemma_sub_wf(before, p);
                }
            }
            if let Some((_, c)) = self.managed.find_window(self.focus) {
                c.nest_container(layout);
            }
            proof {
                if find_path(before, self.focus) is Some {
                    lemma_same_outside_wf(before, self.managed, p);
                }
            }
        } else {
            self.managed.nest_container(layout);
        }
    }

    /// Moves the focus in direction `op` from the focused window, climbing
    /// out of containers whose layout would cross an end. Returns the
    /// window that lost the focus, or `None` when nothing moved because no
    /// window is focused or the focused one is not in the tree.
    pub fn move_focus(&mut self, op: MoveOp) -> (r: Option<Window>)
        requires
            old(self).wf(),
        ensures
            final(self).wf(),
            focus_shifted(*old(self), *final(self), op, r),
    {
        if self.focus == 0 {
            return None;
        }
        match self.managed.window_path(self.focus) {
            Some(path) => {
                proof {
                    lemma_find_path_valid(self.managed, self.focus);
                    lemma_path_nonempty(self.managed, path@, self.focus);
                }
                let prev = self.focus;
                self.focus = self.managed.move_focus_at(&path, op);
                Some(prev)
            },
            None => None,
        }
    }

    /// Moves the focused window in direction `op`: within its container
    /// when that container's layout takes the move, else out to the
    /// nearest level above that takes it. No window is lost or doubled.
    pub fn move_window(&mut self, op: MoveOp)
        requires
            old(self).wf(),
        ensures
            final(self).wf(),
            window_shifted(*old(self), *final(self), op),
            final(self).tree().leaves().to_multiset() == old(self).tree().leaves().to_multiset(),
    {
        match self.managed.window_path(self.focus) {
            Some(path) => {
                proof {
                    lemma_find_path_valid(self.managed, self.focus);
                    lemma_path_nonempty(self.managed, path@, self.focus);
                }
                self.managed.move_window_at(&path, op);
            },
            None => {},
        }
    }
}

/// The workspaces, in order, and which one is current.
pub struct Workspaces {
    list: Vec<Workspace>,
    curr: usize,
}

/// The screen each configuration prefers.
pub open spec fn preferences(configs: Seq<WorkspaceConfig>) -> Seq<usize> {
    configs.map_values(|c: WorkspaceConfig| c.screen)
}

/// How many of the first `i` preferences are screen 0.
pub open spec fn zeros_before(prefs: Seq<usize>, i: int) -> nat
    decreases i,
{
    if i <= 0 {
        0
    } else {
        zeros_before(prefs, i - 1) + if prefs[i - 1] == 0 {
            1nat
        } else {
            0nat
        }
    }
}

/// The screens from 1 up to, not including, `upto` that no preference
/// names, in increasing order.
pub open spec fn unclaimed(prefs: Seq<usize>, upto: int) -> Seq<usize>
    decreases upto,
{
    if upto <= 1 {
        seq![]
    } else {
        unclaimed(prefs, upto - 1) + if prefs.contains((upto - 1) as usize) {
            seq![]
        } else {
            seq![(upto - 1) as usize]
        }
    }
}

/// The screen workspace `i` is put on when there are `screens` screens:
/// the second workspace that prefers screen 0 takes the first screen that
/// no one prefers, the third one the next such screen, and so on; every
/// other workspace keeps its preference.
pub open spec fn assigned_screen(prefs: Seq<usize>, screens: int, i: int) -> usize {
    let k = zeros_before(prefs, i);
    let free = unclaimed(prefs, screens);
    if prefs[i] == 0 && 1 <= k && k - 1 < free.len() {
        free[k - 1]
    } else {
        prefs[i]
    }
}

/// Workspace `i` is shown: it is the first one put on an existing screen.
pub open spec fn shown(prefs: Seq<usize>, screens: int, i: int) -> bool {
    &&& assigned_screen(prefs, screens, i) < screens
    &&& forall|j: int|
        0 <= j < i ==> #[trigger] assigned_screen(prefs, screens, j) != assigned_screen(
            prefs,
            screens,
            i,
        )
}

/// Every existing screen that some workspace is put on shows exactly one
/// of them.
pub proof fn lemma_one_shown_per_screen(prefs: Seq<usize>, screens: int, s: usize)
    requires
        s < screens,
        exists|i: int| 0 <= i < prefs.len() && #[trigger] assigned_screen(prefs, screens, i) == s,
    ensures
        exists|i: int|
            0 <= i < prefs.len() && #[trigger] assigned_screen(prefs, screens, i) == s && shown(
                prefs,
                screens,
                i,
            ),
        forall|i: int, j: int|
            0 <= i < prefs.len() && 0 <= j < prefs.len() && shown(prefs, screens, i) && shown(
                prefs,
                screens,
                j,
            ) && #[trigger] assigned_screen(prefs, screens, i) == #[trigger] assigned_screen(
                prefs,
                screens,
                j,
            ) ==> i == j,
{
    lemma_first_shown(prefs, screens, s, prefs.len() as int);
}

proof fn lemma_first_shown(prefs: Seq<usize>, screens: int, s: usize, k: int)
    requires
        s < screens,
        0 <= k <= prefs.len(),
    ensures
        (exists|i: int| 0 <= i < k && #[trigger] assigned_screen(prefs, screens, i) == s) ==> exists|
            i: int,
        |
            0 <= i < k && #[trigger] assigned_screen(prefs, screens, i) == s && shown(
                prefs,
                screens,
                i,
            ),
    decreases k,
{
    if k > 0 {
        lemma_first_shown(prefs, screens, s, k - 1);
        if exists|i: int| 0 <= i < k && #[trigger] assigned_screen(prefs, screens, i) == s {
            if !exists|i: int| 0 <= i < k - 1 && #[trigger] assigned_screen(prefs, screens, i) == s {
                assert(assigned_screen(prefs, screens, k - 1) == s);
                assert(shown(prefs, screens, k - 1));
            }
        }
    }
}

impl Workspaces {
    pub closed spec fn spaces(&self) -> Seq<Workspace> {
        self.list@
    }

    /// Index of the current workspace.
    pub closed spec fn current(&self) -> int {
        self.curr as int
    }

    /// The current index names a workspace, and every tree is well formed.
    pub open spec fn wf(&self) -> bool {
        &&& 0 <= self.current() < self.spaces().len()
        &&& forall|i: int| 0 <= i < self.spaces().len() ==> #[trigger] self.spaces()[i].wf()
    }

    /// One workspace per configuration, on the screen `assigned_screen`
    /// gives, shown when it is the first on an existing screen; the first
    /// workspace is current.
    #[verifier::spinoff_prover]
    pub fn new(configs: &Vec<WorkspaceConfig>, screens: usize) -> (r: Workspaces)
        ensures
            r.spaces().len() == configs.len(),
            r.current() == 0,
            r.wf() <==> configs.len() > 0,
            forall|i: int|
                0 <= i < configs.len() ==> {
                    let ws = #[trigger] r.spaces()[i];
                    &&& ws.tag_spec() == configs[i].tag@
                    &&& ws.tree().nodes() == Seq::<Node>::empty()
                    &&& ws.tree().layout_spec() == configs[i].layout
                    &&& ws.floating() == Seq::<Window>::empty()
                    &&& ws.focus_spec() == 0
                    &&& ws.screen_spec() == assigned_screen(preferences(configs@), screens as int, i)
                    &&& ws.is_visible() == shown(preferences(configs@), screens as int, i)
                },
    {
        let ghost prefs = preferences(configs@);
        let mut list: Vec<Workspace> = Vec::new();
        let mut i: usize = 0;
        while i < configs.len()
            invariant
                i <= configs.len(),
                prefs == preferences(configs@),
                list.len() == i,
                forall|j: int|
                    0 <= j < i ==> {
                        let ws = #[trigger] list@[j];
                        &&& ws.wf()
                        &&& ws.tag_spec() == configs[j].tag@
                        &&& ws.tree().nodes() == Seq::<Node>::empty()
                        &&& ws.tree().layout_spec() == configs[j].layout
                        &&& ws.floating() == Seq::<Window>::empty()
                        &&& ws.focus_spec() == 0
                        &&& ws.screen == prefs[j]
                        &&& !ws.visible
                    },
            decreases configs.len() - i,
        {
            let c = &configs[i];
            list.push(Workspace::new(c.tag.clone(), c.screen, c.layout));
            i += 1;
        }
        // screens that no workspace prefers
        let mut free: Vec<usize> = Vec::new();
        let mut m: usize = 1;
        while m < screens
            invariant
                1 <= m,
                m <= screens || m == 1,
                prefs == preferences(configs@),
                list.len() == prefs.len(),
                forall|j: int| 0 <= j < list.len() ==> #[trigger] list@[j].screen == prefs[j],
                free@ == unclaimed(prefs, m as int),
            decreases screens - m,
        {
            let mut claimed = false;
            let mut j: usize = 0;
            while j < list.len()
                invariant
                    j <= list.len(),
                    list.len() == prefs.len(),
                    forall|k: int| 0 <= k < list.len() ==> #[trigger] list@[k].screen == prefs[k],
                    claimed <==> exists|k: int| 0 <= k < j && prefs[k] == m,
                decreases list.len() - j,
            {
                if list[j].screen == m {
                    claimed = true;
                }
                j += 1;
            }
            if !claimed {
                free.push(m);
            }
            proof {
                if claimed {
                    let k = choose|k: int| 0 <= k < list.len() && prefs[k] == m;
                    assert(prefs[k] == m);
                } else {
                    assert forall|k: int| 0 <= k < prefs.len() implies prefs[k] != m by {}
                }
                assert(free@ =~= unclaimed(prefs, m + 1));
            }
            m += 1;
        }
        assert(free@ == unclaimed(prefs, screens as int));
        // the second, third, ... workspace on screen 0 moves to a free screen
        let mut zeros: usize = 0;
        let mut i: usize = 0;
        while i < list.len()
            invariant
                i <= list.len(),
                prefs == preferences(configs@),
                list.len() == prefs.len(),
                free@ == unclaimed(prefs, screens as int),
                zeros == zeros_before(prefs, i as int),
                zeros <= i,
                forall|j: int|
                    0 <= j < list.len() ==> {
                        let ws = #[trigger] list@[j];
                        &&& ws.wf()
                        &&& ws.tag_spec() == configs[j].tag@
                        &&& ws.tree().nodes() == Seq::<Node>::empty()
                        &&& ws.tree().layout_spec() == configs[j].layout
                        &&& ws.floating() == Seq::<Window>::empty()
                        &&& ws.focus_spec() == 0
                        &&& !ws.visible
                        &&& ws.screen == if j < i {
                            assigned_screen(prefs, screens as int, j)
                        } else {
                            prefs[j]
                        }
                    },
            decreases list.len() - i,
        {
            if list[i].screen == 0 {
                zeros += 1;
                if zeros >= 2 && zeros - 2 < free.len() {
                    list[i].screen = free[zeros - 2];
                }
            }
            i += 1;
        }
        // the first workspace on each existing screen is shown
        let mut i: usize = 0;
        while i < list.len()
            invariant
                i <= list.len(),
                prefs == preferences(configs@),
                list.len() == prefs.len(),
                forall|j: int|
                    0 <= j < list.len() ==> {
                        let ws = #[trigger] list@[j];
                        &&& ws.wf()
                        &&& ws.tag_spec() == configs[j].tag@
                        &&& ws.tree().nodes() == Seq::<Node>::empty()
                        &&& ws.tree().layout_spec() == configs[j].layout
                        &&& ws.floating() == Seq::<Window>::empty()
                        &&& ws.focus_spec() == 0
                        &&& ws.screen == assigned_screen(prefs, screens as int, j)
                        &&& ws.visible == if j < i {
                            shown(prefs, screens as int, j)
                        } else {
                            false
                        }
                    },
            decreases list.len() - i,
        {
            let screen = list[i].screen;
            let mut first = screen < screens;
            let mut j: usize = 0;
            while j < i
                invariant
                    j <= i < list.len(),
                    list.len() == prefs.len(),
                    screen == assigned_screen(prefs, screens as int, i as int),
                    forall|k: int| 0 <= k < list.len() ==> #[trigger] list@[k].screen
                        == assigned_screen(prefs, screens as int, k),
                    first <==> screen < screens && forall|k: int|
                        0 <= k < j ==> #[trigger] assigned_screen(prefs, screens as int, k) != screen,
                decreases i - j,
            {
                if list[j].screen == screen {
                    first = false;
                }
                j += 1;
            }
            list[i].visible = first;
            i += 1;
        }
        Workspaces { list, curr: 0 }
    }
}

impl Workspaces {
    /// All workspaces, in order.
    pub fn all(&self) -> (r: &Vec<Workspace>)
        ensures
            r@ == self.spaces(),
    {
        &self.list
    }

    /// Index of the current workspace.
    pub fn index(&self) -> (r: usize)
        ensures
            r == self.current(),
    {
        self.curr
    }

    /// The current workspace.
    pub fn curr(&self) -> (r: &Workspace)
        requires
            self.wf(),
        ensures
            *r == self.spaces()[self.current()],
    {
        &self.list[self.curr]
    }

    /// The current workspace, to change in place.
    pub fn curr_mut(&mut self) -> (r: &mut Workspace)
        requires
            old(self).wf(),
        ensures
            *r == old(self).spaces()[old(self).current()],
            final(self).spaces() == old(self).spaces().update(old(self).current(), *final(r)),
            final(self).current() == old(self).current(),
    {
        &mut self.list[self.curr]
    }

    /// Whether some workspace keeps `window` out of its layout.
    pub fn is_unmanaged(&self, window: Window) -> (r: bool)
        ensures
            r == exists|i: int|
                0 <= i < self.spaces().len() && #[trigger] self.spaces()[i].floating().contains(
                    window,
                ),
    {
        let mut i: usize = 0;
        while i < self.list.len()
            invariant
                i <= self.spaces().len(),
                forall|j: int| 0 <= j < i ==> !(#[trigger] self.spaces()[j].floating().contains(window)),
            decreases self.list.len() - i,
        {
            if self.list[i].is_unmanaged(window) {
                return true;
            }
            i += 1;
        }
        false
    }

    /// Whether some workspace holds `window`.
    pub fn contains(&self, window: Window) -> (r: bool)
        ensures
            r == exists|i: int| 0 <= i < self.spaces().len() && #[trigger] self.spaces()[i].has(window),
    {
        let mut i: usize = 0;
        while i < self.list.len()
            invariant
                i <= self.spaces().len(),
                forall|j: int| 0 <= j < i ==> !(#[trigger] self.spaces()[j].has(window)),
            decreases self.list.len() - i,
        {
            if self.list[i].contains(window) {
                return true;
            }
            i += 1;
        }
        false
    }
}

} // verus!
