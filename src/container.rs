use vstd::multiset::Multiset;
use vstd::prelude::*;

use crate::layout::{is_forward, lemma_slot_inside, Layout, MoveOp, Rect, SplitLayout};

verus! {

/// A window handle as handed out by the display server; `0` means "no window".
pub type Window = u64;

/// One entry of a container: a nested container, or a window.
#[derive(Debug)]
pub enum Node {
    SplitContainer(Container),
    Window(Window),
}

/// One level of the window tree: its entries in layout order, the layout that
/// places them, and which entry has the focus at this level.
///
/// Nested containers are reached from their parent by a path of entry
/// indices, so navigation that has to climb towards the root is given the
/// path from the root instead of a pointer back up.
#[derive(Debug)]
pub struct Container {
    visible: Vec<Node>,
    hidden: Vec<Node>,
    layout: SplitLayout,
    focus: usize,
}

impl Container {
    /// The entries, in layout order.
    pub closed spec fn nodes(&self) -> Seq<Node> {
        self.visible@
    }

    /// Entries set aside from the layout.
    pub closed spec fn hidden_nodes(&self) -> Seq<Node> {
        self.hidden@
    }

    pub closed spec fn layout_spec(&self) -> SplitLayout {
        self.layout
    }

    /// Index of the focused entry.
    pub closed spec fn focus_index(&self) -> int {
        self.focus as int
    }

    /// `other` has the same entries, layout and focus as `self`.
    pub open spec fn same(&self, other: Container) -> bool {
        &&& other.nodes() == self.nodes()
        &&& other.hidden_nodes() == self.hidden_nodes()
        &&& other.layout_spec() == self.layout_spec()
        &&& other.focus_index() == self.focus_index()
    }

    /// The focus index points at an entry, or is 0 when there is none.
    pub open spec fn focus_ok(&self) -> bool {
        if self.nodes().len() == 0 {
            self.focus_index() == 0
        } else {
            0 <= self.focus_index() < self.nodes().len()
        }
    }

    /// Every level's focus is in range and every nested container holds at
    /// least one entry.
    pub open spec fn wf(&self) -> bool
        decreases self,
    {
        &&& self.focus_ok()
        &&& forall|i: int|
            0 <= i < self.nodes().len() ==> match #[trigger] self.nodes()[i] {
                Node::SplitContainer(c) => c.nodes().len() > 0 && c.wf(),
                Node::Window(_) => true,
            }
    }

    /// The window at the end of the chain of focused entries, if the chain
    /// ends in one.
    pub open spec fn focused(&self) -> Option<Window>
        decreases self,
    {
        if 0 <= self.focus_index() < self.nodes().len() {
            match self.nodes()[self.focus_index()] {
                Node::Window(w) => Some(w),
                Node::SplitContainer(c) => c.focused(),
            }
        } else {
            None
        }
    }

    /// A window of this level itself, not of a nested container.
    pub open spec fn holds(&self, w: Window) -> bool {
        self.nodes().contains(Node::Window(w))
    }

    /// All windows of the subtree, in layout order.
    pub open spec fn leaves(&self) -> Seq<Window> {
        leaves_upto(self.nodes(), self.nodes().len() as int)
    }
}

/// The windows under the first `k` entries of `nodes`, in order.
pub open spec fn leaves_upto(nodes: Seq<Node>, k: int) -> Seq<Window>
    decreases nodes, k,
{
    if 0 < k <= nodes.len() {
        leaves_upto(nodes, k - 1) + node_leaves(nodes[k - 1])
    } else {
        seq![]
    }
}

/// The windows under one entry, in order.
pub open spec fn node_leaves(n: Node) -> Seq<Window>
    decreases n, 0int,
{
    match n {
        Node::Window(w) => seq![w],
        Node::SplitContainer(c) => leaves_upto(c.nodes(), c.nodes().len() as int),
    }
}

/// Where the first `k` of `nodes` go when all of them share `area` under
/// `layout`: each window with its rectangle, nested containers expanded.
pub open spec fn placements_upto(layout: SplitLayout, nodes: Seq<Node>, area: Rect, k: int) -> Seq<
    (Window, Rect),
>
    decreases nodes, k,
{
    if 0 < k <= nodes.len() {
        placements_upto(layout, nodes, area, k - 1) + node_placements(
            nodes[k - 1],
            layout.spec_slot(area, nodes.len() as int, k - 1),
        )
    } else {
        seq![]
    }
}

/// Where the windows under one entry go when it is given `area`.
pub open spec fn node_placements(n: Node, area: Rect) -> Seq<(Window, Rect)>
    decreases n, 0int,
{
    match n {
        Node::Window(w) => seq![(w, area)],
        Node::SplitContainer(c) => placements_upto(
            c.layout_spec(),
            c.nodes(),
            area,
            c.nodes().len() as int,
        ),
    }
}

/// `path` leads from `c` through nested containers only.
pub open spec fn valid_path(c: Container, path: Seq<usize>) -> bool
    decreases path.len(),
{
    path.len() == 0 || (path[0] < c.nodes().len() && match c.nodes()[path[0] as int] {
        Node::SplitContainer(s) => valid_path(s, path.drop_first()),
        Node::Window(_) => false,
    })
}

/// The container that `path` leads to from `c`.
pub open spec fn sub_at(c: Container, path: Seq<usize>) -> Container
    decreases path.len(),
{
    if path.len() == 0 {
        c
    } else {
        match c.nodes()[path[0] as int] {
            Node::SplitContainer(s) => sub_at(s, path.drop_first()),
            Node::Window(_) => c,
        }
    }
}

/// `new` is `old` but inside the container at `path`: the levels on the
/// way keep their layout, focus and every entry off the path.
pub open spec fn same_outside(old: Container, new: Container, path: Seq<usize>) -> bool
    decreases path.len(),
{
    if path.len() == 0 {
        true
    } else {
        &&& new.hidden_nodes() == old.hidden_nodes()
        &&& new.layout_spec() == old.layout_spec()
        &&& new.focus_index() == old.focus_index()
        &&& new.nodes().len() == old.nodes().len()
        &&& path[0] < old.nodes().len()
        &&& forall|j: int|
            0 <= j < old.nodes().len() && j != path[0] ==> #[trigger] new.nodes()[j]
                == old.nodes()[j]
        &&& match (old.nodes()[path[0] as int], new.nodes()[path[0] as int]) {
            (Node::SplitContainer(a), Node::SplitContainer(b)) => same_outside(
                a,
                b,
                path.drop_first(),
            ),
            _ => false,
        }
    }
}

/// Where `w` is, as a path to the container that holds it: this level
/// first, then each nested container in order, depth first.
pub open spec fn find_path(c: Container, w: Window) -> Option<Seq<usize>>
    decreases c.nodes(), c.nodes().len() + 1,
{
    if c.holds(w) {
        Some(Seq::empty())
    } else {
        find_path_from(c.nodes(), w, 0)
    }
}

/// `find_path` over the nested containers among `nodes` from entry `k` on.
pub open spec fn find_path_from(nodes: Seq<Node>, w: Window, k: int) -> Option<Seq<usize>>
    decreases nodes, nodes.len() - k,
{
    if 0 <= k < nodes.len() {
        match nodes[k] {
            Node::SplitContainer(s) => match find_path(s, w) {
                Some(p) => Some(seq![k as usize] + p),
                None => find_path_from(nodes, w, k + 1),
            },
            Node::Window(_) => find_path_from(nodes, w, k + 1),
        }
    } else {
        None
    }
}

/// The focus index left when entry `index` is removed from a level focused
/// at `focus`: one less when a later-or-equal entry other than the first
/// goes, else unchanged.
pub open spec fn focus_after_removal(focus: int, index: int) -> int {
    if index != 0 && index >= focus {
        focus - 1
    } else {
        focus
    }
}

/// An entry as a well-formed tree has it: a nested container must be well
/// formed and hold entries.
pub open spec fn node_ok(n: Node) -> bool {
    match n {
        Node::SplitContainer(c) => c.nodes().len() > 0 && c.wf(),
        Node::Window(_) => true,
    }
}

/// `b` is `a` with `w` added after the focused entry, or as the only entry,
/// and focused.
pub open spec fn window_added(a: Container, b: Container, w: Window) -> bool {
    &&& b.nodes() == a.inserted_nodes(Node::Window(w))
    &&& b.focus_index() == a.insert_position()
    &&& b.hidden_nodes() == a.hidden_nodes()
    &&& b.layout_spec() == a.layout_spec()
}

/// `b` is `a` with its focused entry wrapped, in place, in a new container
/// with `layout`; with no entries, `a` takes `layout` instead.
pub open spec fn nested(a: Container, b: Container, layout: SplitLayout) -> bool {
    &&& b.hidden_nodes() == a.hidden_nodes()
    &&& b.focus_index() == a.focus_index()
    &&& a.nodes().len() == 0 ==> b.nodes() == a.nodes() && b.layout_spec() == layout
    &&& a.nodes().len() > 0 ==> {
        &&& b.layout_spec() == a.layout_spec()
        &&& b.nodes().len() == a.nodes().len()
        &&& forall|i: int|
            0 <= i < a.nodes().len() && i != a.focus_index() ==> #[trigger] b.nodes()[i]
                == a.nodes()[i]
        &&& b.nodes()[a.focus_index()] matches Node::SplitContainer(c) && c.nodes() == seq![
            a.nodes()[a.focus_index()],
        ] && c.focus_index() == 0 && c.layout_spec() == layout && c.hidden_nodes() == Seq::<
            Node,
        >::empty()
    }
}

/// Where a move in direction `op` leads at `c`'s own level, and whether it
/// crosses an end of that level.
pub open spec fn step_of(c: Container, op: MoveOp) -> (int, bool) {
    c.layout_spec().spec_move_focus(c.focus_index(), c.nodes().len() as int, op)
}

/// How far down `path` lies the level that takes a move in direction `op`:
/// starting at the end of the path, a level whose layout crosses an end
/// hands the move to its parent; `None` when even `c` crosses.
pub open spec fn handling_depth(c: Container, path: Seq<usize>, op: MoveOp) -> Option<nat>
    decreases path.len(),
{
    let inner = if path.len() > 0 && path[0] < c.nodes().len() {
        match c.nodes()[path[0] as int] {
            Node::SplitContainer(s) => handling_depth(s, path.drop_first(), op),
            Node::Window(_) => None,
        }
    } else {
        None
    };
    match inner {
        Some(d) => Some(d + 1),
        None => if step_of(c, op).1 {
            None
        } else {
            Some(0)
        },
    }
}

/// `b` is `a` with the focus moved as `step_of` says.
pub open spec fn refocused(a: Container, b: Container, op: MoveOp) -> bool {
    &&& b.nodes() == a.nodes()
    &&& b.hidden_nodes() == a.hidden_nodes()
    &&& b.layout_spec() == a.layout_spec()
    &&& b.focus_index() == step_of(a, op).0
}

/// `b` is `a` with its focused entry moved towards slot `index`: into the
/// nested container found there once the entry is taken out, else to slot
/// `index` itself. The focus follows the entry.
pub open spec fn moved(a: Container, b: Container, index: int) -> bool {
    let f = a.focus_index();
    let node = a.nodes()[f];
    let rest = a.nodes().remove(f);
    let t = if f < index {
        index - 1
    } else {
        index
    };
    &&& b.hidden_nodes() == a.hidden_nodes()
    &&& b.layout_spec() == a.layout_spec()
    &&& if index == f {
        b.nodes() == a.nodes() && b.focus_index() == f
    } else {
        match rest[t] {
            Node::SplitContainer(c) => {
                &&& b.focus_index() == t
                &&& b.nodes().len() == rest.len()
                &&& forall|j: int|
                    0 <= j < rest.len() && j != t ==> #[trigger] b.nodes()[j] == rest[j]
                &&& b.nodes()[t] matches Node::SplitContainer(c2) && {
                    &&& c2.nodes() == c.inserted_nodes(node)
                    &&& c2.focus_index() == c.insert_position()
                    &&& c2.layout_spec() == c.layout_spec()
                    &&& c2.hidden_nodes() == c.hidden_nodes()
                }
            },
            Node::Window(_) => b.nodes() == rest.insert(index, node) && b.focus_index() == index,
        }
    }
}

/// `new` is `old` after a focus move in direction `op` that starts at the
/// container `path` leads to and climbs while levels cross an end.
pub open spec fn focus_moved(old: Container, new: Container, path: Seq<usize>, op: MoveOp) -> bool {
    match handling_depth(old, path, op) {
        Some(d) => same_outside(old, new, path.subrange(0, d as int)) && refocused(
            sub_at(old, path.subrange(0, d as int)),
            sub_at(new, path.subrange(0, d as int)),
            op,
        ),
        None => old.same(new),
    }
}

/// The window a focus move reports: the one at the end of the focus chain
/// from the level that took the move, or from the root when none did.
pub open spec fn focus_result(old: Container, new: Container, path: Seq<usize>, op: MoveOp) -> Option<
    Window,
> {
    match handling_depth(old, path, op) {
        Some(d) => sub_at(new, path.subrange(0, d as int)).focused(),
        None => new.focused(),
    }
}

/// `b` is `a` with its focused entry taken out, the focus adjusted as for
/// any removal.
pub open spec fn taken(a: Container, b: Container) -> bool {
    &&& b.nodes() == a.nodes().remove(a.focus_index())
    &&& b.focus_index() == focus_after_removal(a.focus_index(), a.focus_index())
    &&& b.hidden_nodes() == a.hidden_nodes()
    &&& b.layout_spec() == a.layout_spec()
}

/// `b` is `a` after the focused entry of the container that `path` leads to
/// left it for `a`'s own level: it stands right after entry `path[0]` when
/// `forward`, right before it otherwise, and has the focus. Nothing else
/// changes.
pub open spec fn pulled(a: Container, b: Container, path: Seq<usize>, forward: bool) -> bool {
    let k = path[0] as int;
    let pos = if forward {
        k + 1
    } else {
        k
    };
    let t = sub_at(a, path);
    let rest = path.drop_first();
    &&& b.hidden_nodes() == a.hidden_nodes()
    &&& b.layout_spec() == a.layout_spec()
    &&& b.focus_index() == pos
    &&& b.nodes().len() == a.nodes().len() + 1
    &&& b.nodes()[pos] == t.nodes()[t.focus_index()]
    &&& forall|j: int|
        0 <= j < a.nodes().len() && j != k ==> b.nodes()[if j < pos {
            j
        } else {
            j + 1
        }] == #[trigger] a.nodes()[j]
    &&& match (a.nodes()[k], b.nodes()[if forward { k } else { k + 1 }]) {
        (Node::SplitContainer(c), Node::SplitContainer(c2)) => same_outside(c, c2, rest) && taken(
            sub_at(c, rest),
            sub_at(c2, rest),
        ),
        _ => false,
    }
}

/// `new` is `old` after a window move in direction `op` that starts at the
/// container `path` leads to. When that container's layout takes the move,
/// its focused entry moves there. Otherwise the move climbs while levels
/// cross an end, and the focused entry leaves for the level that takes it,
/// beside the entry it came from (after it for `Right` and `Down`). A
/// window alone in its container stays, as containers are never removed;
/// nothing changes either when even the root crosses.
pub open spec fn window_moved(old: Container, new: Container, path: Seq<usize>, op: MoveOp) -> bool {
    match handling_depth(old, path, op) {
        Some(d) => {
            let p = path.subrange(0, d as int);
            if d == path.len() {
                same_outside(old, new, p) && moved(
                    sub_at(old, p),
                    sub_at(new, p),
                    step_of(sub_at(old, p), op).0,
                )
            } else if sub_at(old, path).nodes().len() > 1 {
                same_outside(old, new, p) && pulled(
                    sub_at(old, p),
                    sub_at(new, p),
                    path.subrange(d as int, path.len() as int),
                    is_forward(op),
                )
            } else {
                old.same(new)
            }
        },
        None => old.same(new),
    }
}

impl Container {
    pub fn new(layout: SplitLayout) -> (r: Container)
        ensures
            r.nodes() == Seq::<Node>::empty(),
            r.hidden_nodes() == Seq::<Node>::empty(),
            r.layout_spec() == layout,
            r.focus_index() == 0,
            r.wf(),
    {
        Container { visible: Vec::new(), hidden: Vec::new(), layout, focus: 0 }
    }

    /// Number of entries at this level.
    pub fn count(&self) -> (r: usize)
        ensures
            r == self.nodes().len(),
    {
        self.visible.len()
    }

    /// Whether `window` is an entry of this level itself.
    pub fn contains(&self, window: Window) -> (r: bool)
        ensures
            r == self.holds(window),
    {
        let mut i: usize = 0;
        while i < self.visible.len()
            invariant
                i <= self.nodes().len(),
                forall|j: int| 0 <= j < i ==> self.nodes()[j] != Node::Window(window),
            decreases self.visible.len() - i,
        {
            if let Node::Window(w) = &self.visible[i] {
                if *w == window {
                    assert(self.nodes()[i as int] == Node::Window(window));
                    return true;
                }
            }
            i += 1;
        }
        false
    }

    /// Whether `window` is anywhere in the subtree.
    pub fn contains_rec(&self, window: Window) -> (r: bool)
        ensures
            r == self.leaves().contains(window),
        decreases self,
    {
        let mut i: usize = 0;
        while i < self.visible.len()
            invariant
                i <= self.nodes().len(),
                !leaves_upto(self.nodes(), i as int).contains(window),
            decreases self.visible.len() - i,
        {
            proof {
                lemma_concat_contains(
                    leaves_upto(self.nodes(), i as int),
                    node_leaves(self.nodes()[i as int]),
                    window,
                );
            }
            let found = match &self.visible[i] {
                Node::Window(w) => {
                    assert(node_leaves(self.nodes()[i as int]) == seq![*w]);
                    assert(seq![*w][0] == *w);
                    *w == window
                },
                Node::SplitContainer(c) => c.contains_rec(window),
            };
            if found {
                proof {
                    lemma_leaves_prefix(self.nodes(), i as int + 1, window);
                }
                return true;
            }
            i += 1;
        }
        false
    }
}

impl Container {
    /// The entries of this level, in layout order.
    pub fn entries(&self) -> (r: &Vec<Node>)
        ensures
            r@ == self.nodes(),
    {
        &self.visible
    }

    /// Index of the focused entry.
    pub fn focus(&self) -> (r: usize)
        ensures
            r == self.focus_index(),
    {
        self.focus
    }

    pub fn layout(&self) -> (r: SplitLayout)
        ensures
            r == self.layout_spec(),
    {
        self.layout
    }

    /// Walks the windows of this level, skipping nested containers.
    pub fn iter(&self) -> (r: WindowIter<'_>)
        ensures
            r.entries() == self.nodes(),
            r.position() == 0,
    {
        WindowIter { nodes: &self.visible, index: 0 }
    }
}

impl Container {
    /// The window at the end of the focus chain.
    pub fn focused_window(&self) -> (r: Window)
        requires
            self.wf(),
            self.nodes().len() > 0,
        ensures
            self.focused() == Some(r),
        decreases self,
    {
        match &self.visible[self.focus] {
            Node::Window(w) => *w,
            Node::SplitContainer(c) => c.focused_window(),
        }
    }

    /// Index of the first entry of this level that is `window`.
    pub fn index_of_window(&self, window: Window) -> (r: usize)
        requires
            self.holds(window),
        ensures
            Some(r as int) == self.nodes().index_of_first(Node::Window(window)),
    {
        proof {
            self.nodes().index_of_first_ensures(Node::Window(window));
        }
        let ghost k = self.nodes().index_of_first(Node::Window(window))->0;
        let mut i: usize = 0;
        while i < self.visible.len()
            invariant
                i <= k < self.nodes().len(),
                self.nodes()[k] == Node::Window(window),
                forall|j: int| 0 <= j < k ==> self.nodes()[j] != Node::Window(window),
                self.nodes().index_of_first(Node::Window(window)) == Some(k),
            decreases self.visible.len() - i,
        {
            if let Node::Window(w) = &self.visible[i] {
                if *w == window {
                    return i;
                }
            }
            i += 1;
        }
        i
    }

    /// Inserts `node` just after the focused entry (or as the only one) and
    /// focuses it.
    #[verifier::spinoff_prover]
    fn add_node(&mut self, node: Node)
        requires
            old(self).focus_ok(),
        ensures
            final(self).nodes() == old(self).inserted_nodes(node),
            final(self).focus_index() == old(self).insert_position(),
            final(self).hidden_nodes() == old(self).hidden_nodes(),
            final(self).layout_spec() == old(self).layout_spec(),
            old(self).wf() && node_ok(node) ==> final(self).wf(),
    {
        if self.visible.len() == 0 {
            self.visible.push(node);
        } else {
            self.focus = self.focus + 1;
            self.visible.insert(self.focus, node);
        }
        proof {
            if old(self).wf() && node_ok(node) {
                assert forall|i: int| 0 <= i < self.nodes().len() implies match #[trigger] self.nodes()[i] {
                    Node::SplitContainer(c) => c.nodes().len() > 0 && c.wf(),
                    Node::Window(_) => true,
                } by {
                    let p = old(self).insert_position();
                    if i < p {
                        assert(self.nodes()[i] == old(self).nodes()[i]);
                    } else if i > p {
                        assert(self.nodes()[i] == old(self).nodes()[i - 1]);
                    }
                }
            }
        }
    }

    /// Where `add_window` puts the new entry.
    pub open spec fn insert_position(&self) -> int {
        if self.nodes().len() == 0 {
            0
        } else {
            self.focus_index() + 1
        }
    }

    /// The entries after `node` is inserted at `insert_position`.
    pub open spec fn inserted_nodes(&self, node: Node) -> Seq<Node> {
        self.nodes().insert(self.insert_position(), node)
    }

    /// Adds `window` right after the focused entry (or as the only entry) and
    /// focuses it.
    pub fn add_window(&mut self, window: Window)
        requires
            old(self).wf(),
        ensures
            window_added(*old(self), *final(self), window),
            final(self).wf(),
    {
        self.add_node(Node::Window(window));
    }

    /// The focus index that removing entry `index` leaves: one less when a
    /// later-or-equal entry other than the first goes, else unchanged.
    pub open spec fn focus_after_removal(&self, index: int) -> int {
        focus_after_removal(self.focus_index(), index)
    }

    /// Removing entry `index` leaves the focus out of range: an earlier entry
    /// goes while the last one has the focus.
    pub open spec fn removal_strands_focus(&self, index: int) -> bool {
        index < self.focus_index() && self.focus_index() + 1 == self.nodes().len()
    }

    /// Removes entry `index`. Removing any entry but the first while the
    /// first has the focus would move the focus below zero, so it is not
    /// allowed.
    #[verifier::spinoff_prover]
    pub fn remove_at(&mut self, index: usize)
        requires
            old(self).wf(),
            index < old(self).nodes().len(),
            index == 0 || old(self).focus_index() > 0,
        ensures
            final(self).nodes() == old(self).nodes().remove(index as int),
            final(self).focus_index() == old(self).focus_after_removal(index as int),
            final(self).hidden_nodes() == old(self).hidden_nodes(),
            final(self).layout_spec() == old(self).layout_spec(),
            final(self).wf() <==> !old(self).removal_strands_focus(index as int),
    {
        self.visible.remove(index);
        if index != 0 && index >= self.focus {
            self.focus = self.focus - 1;
        }
        proof {
            assert forall|i: int| 0 <= i < self.nodes().len() implies match #[trigger] self.nodes()[i] {
                Node::SplitContainer(c) => c.nodes().len() > 0 && c.wf(),
                Node::Window(_) => true,
            } by {
                if i < index {
                    assert(self.nodes()[i] == old(self).nodes()[i]);
                } else {
                    assert(self.nodes()[i] == old(self).nodes()[i + 1]);
                }
            }
        }
    }

    /// Removes the first entry of this level that is `window`.
    pub fn remove_window(&mut self, window: Window)
        requires
            old(self).wf(),
            old(self).holds(window),
            old(self).nodes().index_of_first(Node::Window(window)) matches Some(k) && (k == 0
                || old(self).focus_index() > 0),
        ensures
            old(self).nodes().index_of_first(Node::Window(window)) matches Some(k) && {
                &&& final(self).nodes() == old(self).nodes().remove(k)
                &&& final(self).focus_index() == old(self).focus_after_removal(k)
                &&& final(self).wf() <==> !old(self).removal_strands_focus(k)
            },
            final(self).hidden_nodes() == old(self).hidden_nodes(),
            final(self).layout_spec() == old(self).layout_spec(),
    {
        proof {
            self.nodes().index_of_first_ensures(Node::Window(window));
        }
        let index = self.index_of_window(window);
        self.remove_at(index);
    }

    /// Wraps the focused entry in a new container with `layout`, in its
    /// place; with no entries, this level takes `layout` instead.
    #[verifier::spinoff_prover]
    pub fn nest_container(&mut self, layout: SplitLayout)
        requires
            old(self).wf(),
        ensures
            final(self).wf(),
            nested(*old(self), *final(self), layout),
    {
        if self.visible.len() != 0 {
            let mut container = Container::new(layout);
            let node = self.visible.remove(self.focus);
            container.visible.push(node);
            self.visible.insert(self.focus, Node::SplitContainer(container));
            proof {
                assert(container.nodes() =~= seq![old(self).nodes()[old(self).focus_index()]]);
                assert forall|i: int| 0 <= i < self.nodes().len() implies match #[trigger] self.nodes()[i] {
                    Node::SplitContainer(c) => c.nodes().len() > 0 && c.wf(),
                    Node::Window(_) => true,
                } by {
                    if i != self.focus {
                        assert(self.nodes()[i] == old(self).nodes()[i]);
                    } else {
                        assert(container.nodes()[0] == old(self).nodes()[i]);
                    }
                }
            }
        } else {
            self.layout = layout;
        }
    }
}

impl Container {
    /// Every window of the subtree with the rectangle it gets in `area`.
    pub open spec fn placements(&self, area: Rect) -> Seq<(Window, Rect)> {
        placements_upto(self.layout_spec(), self.nodes(), area, self.nodes().len() as int)
    }

    /// Lays the subtree out in `area`: each window of it, in layout order,
    /// with its rectangle.
    pub fn apply_layout(&self, area: Rect) -> (r: Vec<(Window, Rect)>)
        requires
            area.fits(),
        ensures
            r@ == self.placements(area),
        decreases self,
    {
        let mut ret: Vec<(Window, Rect)> = Vec::new();
        let rects = self.layout.apply(area, &self.visible);
        let mut i: usize = 0;
        while i < self.visible.len()
            invariant
                area.fits(),
                i <= self.nodes().len(),
                rects.len() == self.nodes().len(),
                forall|j: int|
                    0 <= j < rects.len() ==> #[trigger] rects[j] == self.layout_spec().spec_slot(
                        area,
                        self.nodes().len() as int,
                        j,
                    ) && rects[j].inside(area),
                ret@ == placements_upto(self.layout_spec(), self.nodes(), area, i as int),
            decreases self.visible.len() - i,
        {
            let rect = rects[i];
            let ghost before = ret@;
            match &self.visible[i] {
                Node::Window(w) => {
                    ret.push((*w, rect));
                },
                Node::SplitContainer(c) => {
                    let mut sub = c.apply_layout(rect);
                    ret.append(&mut sub);
                },
            }
            assert(ret@ =~= before + node_placements(self.nodes()[i as int], rect));
            i += 1;
        }
        ret
    }
}

impl Container {
    /// The container at `path[depth..end]` below this one, to change in
    /// place; `None` only where the path does not lead through containers.
    #[verifier::spinoff_prover]
    fn descend(&mut self, path: &Vec<usize>, depth: usize, end: usize) -> (r: Option<&mut Container>)
        requires
            depth <= end <= path.len(),
            valid_path(*old(self), path@.subrange(depth as int, end as int)),
        ensures
            r matches Some(c) && {
                &&& *c == sub_at(*old(self), path@.subrange(depth as int, end as int))
                &&& same_outside(*old(self), *final(self), path@.subrange(depth as int, end as int))
                &&& sub_at(*final(self), path@.subrange(depth as int, end as int)) == *final(c)
            },
        decreases end - depth,
    {
        if depth == end {
            Some(self)
        } else {
            let i = path[depth];
            proof {
                assert(path@.subrange(depth as int, end as int).drop_first() =~= path@.subrange(
                    depth + 1,
                    end as int,
                ));
            }
            match &mut self.visible[i] {
                Node::SplitContainer(c) => c.descend(path, depth + 1, end),
                Node::Window(_) => None,
            }
        }
    }

    /// The path to the container that holds `window`: this level first,
    /// then each nested container in order, depth first.
    #[verifier::spinoff_prover]
    pub fn window_path(&self, window: Window) -> (r: Option<Vec<usize>>)
        ensures
            match r {
                Some(p) => find_path(*self, window) == Some(p@),
                None => find_path(*self, window) is None,
            },
        decreases self.nodes(), self.nodes().len() + 1,
    {
        if self.contains(window) {
            return Some(Vec::new());
        }
        let mut i: usize = 0;
        while i < self.visible.len()
            invariant
                i <= self.nodes().len(),
                !self.holds(window),
                find_path(*self, window) == find_path_from(self.nodes(), window, i as int),
            decreases self.visible.len() - i,
        {
            if let Node::SplitContainer(c) = &self.visible[i] {
                if let Some(mut p) = c.window_path(window) {
                    p.insert(0, i);
                    assert(p@ =~= seq![i] + find_path(*c, window)->0);
                    return Some(p);
                }
            }
            i += 1;
        }
        None
    }

    /// The container that holds `window`, found as `window_path` finds it,
    /// with the index of `window` in it.
    pub fn find_window(&mut self, window: Window) -> (r: Option<(usize, &mut Container)>)
        ensures
            match r {
                Some((i, c)) => find_path(*old(self), window) matches Some(p) && {
                    &&& *c == sub_at(*old(self), p)
                    &&& Some(i as int) == c.nodes().index_of_first(Node::Window(window))
                    &&& same_outside(*old(self), *final(self), p)
                    &&& sub_at(*final(self), p) == *final(c)
                },
                None => find_path(*old(self), window) is None && old(self).same(*final(self)),
            },
            r is None <==> !old(self).leaves().contains(window),
    {
        proof {
            lemma_find_path_complete(*self, window);
        }
        match self.window_path(window) {
            Some(path) => {
                proof {
                    lemma_find_path_valid(*self, window);
                    assert(path@.subrange(0, path@.len() as int) =~= path@);
                }
                match self.descend(&path, 0, path.len()) {
                    Some(c) => {
                        let i = c.index_of_window(window);
                        Some((i, c))
                    },
                    None => None,
                }
            },
            None => None,
        }
    }
}

impl Container {
    /// `handling_depth` of `path[depth..]`.
    fn handler(&self, path: &Vec<usize>, depth: usize, op: MoveOp) -> (r: Option<usize>)
        requires
            self.wf(),
            self.nodes().len() > 0,
            depth <= path.len(),
            valid_path(*self, path@.subrange(depth as int, path.len() as int)),
        ensures
            match r {
                Some(d) => handling_depth(*self, path@.subrange(depth as int, path.len() as int), op)
                    == Some(d as nat) && d <= path.len() - depth,
                None => handling_depth(
                    *self,
                    path@.subrange(depth as int, path.len() as int),
                    op,
                ) is None,
            },
        decreases path.len() - depth,
    {
        let ghost p = path@.subrange(depth as int, path.len() as int);
        if depth < path.len() {
            let i = path[depth];
            assert(p.drop_first() =~= path@.subrange(depth + 1, path.len() as int));
            assert(match self.nodes()[i as int] {
                Node::SplitContainer(c) => c.nodes().len() > 0 && c.wf(),
                Node::Window(_) => true,
            });
            if let Node::SplitContainer(c) = &self.visible[i] {
                if let Some(d) = c.handler(path, depth + 1, op) {
                    return Some(d + 1);
                }
            }
        }
        let (_, crossing) = self.layout.move_focus(self.focus, self.visible.len(), op);
        if crossing {
            None
        } else {
            Some(0)
        }
    }

    /// Moves the focus in direction `op`, starting at the container that
    /// `path` leads to: each level whose layout would cross an end hands
    /// the move up to its parent; when the root would cross too, nothing
    /// changes. Returns the window that has the focus afterwards.
    #[verifier::spinoff_prover]
    pub fn move_focus_at(&mut self, path: &Vec<usize>, op: MoveOp) -> (r: Window)
        requires
            old(self).wf(),
            old(self).nodes().len() > 0,
            valid_path(*old(self), path@),
        ensures
            final(self).wf(),
            final(self).nodes().len() > 0,
            focus_moved(*old(self), *final(self), path@, op),
            focus_result(*old(self), *final(self), path@, op) == Some(r),
    {
        proof {
            assert(path@.subrange(0, path.len() as int) =~= path@);
        }
        if let Some(d) = self.handler(path, 0, op) {
            let ghost p = path@.subrange(0, d as int);
            proof {
                lemma_valid_path_prefix(*self, path@, d as int);
                lemma_sub_wf(*self, p);
            }
            let ghost before = *self;
            let mut w: Window = 0;
            if let Some(c) = self.descend(path, 0, d) {
                assert(handling_depth(sub_at(before, p), seq![], op) == Some(0nat)) by {
                    lemma_handling_depth_sub(before, path@, op);
                }
                let (index, _) = c.layout.move_focus(c.focus, c.visible.len(), op);
                c.focus = index;
                proof {
                    if d == 0 {
                        assert(c.nodes().len() > 0);
                    }
                }
                w = c.focused_window();
            }
            proof {
                lemma_same_outside_wf(before, *self, p);
            }
            w
        } else {
            self.focused_window()
        }
    }
}

impl Container {
    /// Moves the focus in direction `op` at this level, handing it to no
    /// one: when the layout would cross an end, nothing changes. Returns
    /// the window that has the focus afterwards.
    pub fn move_focus(&mut self, op: MoveOp) -> (r: Window)
        requires
            old(self).wf(),
            old(self).nodes().len() > 0,
        ensures
            final(self).wf(),
            final(self).focused() == Some(r),
            step_of(*old(self), op).1 ==> old(self).same(*final(self)),
            !step_of(*old(self), op).1 ==> refocused(*old(self), *final(self), op),
    {
        let path: Vec<usize> = Vec::new();
        proof {
            assert(path@.subrange(0, 0) =~= path@);
        }
        self.move_focus_at(&path, op)
    }

    /// Moves the focused entry of this level to slot `index`, or into the
    /// nested container that stands there once the entry is taken out.
    #[verifier::spinoff_prover]
    fn shift_focused(&mut self, index: usize)
        requires
            old(self).wf(),
            old(self).nodes().len() > 0,
            index < old(self).nodes().len(),
        ensures
            moved(*old(self), *final(self), index as int),
            final(self).wf(),
            final(self).nodes().len() > 0,
    {
        if index == self.focus {
            return;
        }
        let f = self.focus;
        assert(node_ok(self.nodes()[f as int]));
        let node = self.visible.remove(f);
        let t = if f < index {
            index - 1
        } else {
            index
        };
        let into = match &self.visible[t] {
            Node::SplitContainer(_) => true,
            Node::Window(_) => false,
        };
        let ghost rest = self.nodes();
        if into {
            assert(node_ok(rest[t as int])) by {
                if t < f {
                    assert(rest[t as int] == old(self).nodes()[t as int]);
                } else {
                    assert(rest[t as int] == old(self).nodes()[t + 1]);
                }
            }
            match &mut self.visible[t] {
                Node::SplitContainer(c) => {
                    c.add_node(node);
                },
                Node::Window(_) => {},
            }
            self.focus = t;
            proof {
                assert forall|i: int| 0 <= i < self.nodes().len() implies match #[trigger] self.nodes()[i] {
                    Node::SplitContainer(c) => c.nodes().len() > 0 && c.wf(),
                    Node::Window(_) => true,
                } by {
                    if i != t {
                        assert(self.nodes()[i] == rest[i]);
                        if i < f {
                            assert(rest[i] == old(self).nodes()[i]);
                        } else {
                            assert(rest[i] == old(self).nodes()[i + 1]);
                        }
                    }
                }
            }
        } else {
            self.visible.insert(index, node);
            self.focus = index;
            proof {
                assert forall|i: int| 0 <= i < self.nodes().len() implies match #[trigger] self.nodes()[i] {
                    Node::SplitContainer(c) => c.nodes().len() > 0 && c.wf(),
                    Node::Window(_) => true,
                } by {
                    if i != index {
                        let k = if i < index { i } else { i - 1 };
                        assert(self.nodes()[i] == rest[k]);
                        if k < f {
                            assert(rest[k] == old(self).nodes()[k]);
                        } else {
                            assert(rest[k] == old(self).nodes()[k + 1]);
                        }
                    }
                }
            }
        }
    }

    /// The container at `path[depth..]` below this one.
    fn sub_ref(&self, path: &Vec<usize>, depth: usize) -> (r: Option<&Container>)
        requires
            depth <= path.len(),
            valid_path(*self, path@.subrange(depth as int, path.len() as int)),
        ensures
            r matches Some(c) && *c == sub_at(*self, path@.subrange(depth as int, path.len() as int)),
        decreases path.len() - depth,
    {
        if depth == path.len() {
            Some(self)
        } else {
            proof {
                assert(path@.subrange(depth as int, path.len() as int).drop_first()
                    =~= path@.subrange(depth + 1, path.len() as int));
            }
            match &self.visible[path[depth]] {
                Node::SplitContainer(c) => c.sub_ref(path, depth + 1),
                Node::Window(_) => None,
            }
        }
    }

    /// Takes the focused entry out.
    fn take_focused(&mut self) -> (r: Node)
        requires
            old(self).wf(),
            old(self).nodes().len() > 1,
        ensures
            r == old(self).nodes()[old(self).focus_index()],
            node_ok(r),
            taken(*old(self), *final(self)),
            final(self).wf(),
            final(self).nodes().len() > 0,
    {
        let f = self.focus;
        assert(node_ok(self.nodes()[f as int]));
        let node = self.visible.remove(f);
        if f != 0 {
            self.focus = f - 1;
        }
        proof {
            assert forall|i: int| 0 <= i < self.nodes().len() implies match #[trigger] self.nodes()[i] {
                Node::SplitContainer(c) => c.nodes().len() > 0 && c.wf(),
                Node::Window(_) => true,
            } by {
                if i < f {
                    assert(self.nodes()[i] == old(self).nodes()[i]);
                } else {
                    assert(self.nodes()[i] == old(self).nodes()[i + 1]);
                }
            }
        }
        node
    }

    /// Moves the focused entry of the container at `path[depth..]` out to
    /// this level, beside entry `path[depth]`: after it when `forward`.
    #[verifier::spinoff_prover]
    fn pull_up(&mut self, path: &Vec<usize>, depth: usize, forward: bool)
        requires
            old(self).wf(),
            depth < path.len(),
            valid_path(*old(self), path@.subrange(depth as int, path.len() as int)),
            sub_at(*old(self), path@.subrange(depth as int, path.len() as int)).nodes().len() > 1,
        ensures
            final(self).wf(),
            final(self).nodes().len() > 0,
            pulled(
                *old(self),
                *final(self),
                path@.subrange(depth as int, path.len() as int),
                forward,
            ),
    {
        let ghost q = path@.subrange(depth as int, path.len() as int);
        let ghost rest = path@.subrange(depth + 1, path.len() as int);
        assert(q.drop_first() =~= rest);
        let k = path[depth];
        let ghost c0 = match self.nodes()[k as int] {
            Node::SplitContainer(c) => c,
            Node::Window(_) => *self,
        };
        proof {
            assert(node_ok(self.nodes()[k as int]));
            lemma_sub_wf(c0, rest);
        }
        let mut out: Option<Node> = None;
        match &mut self.visible[k] {
            Node::SplitContainer(c) => {
                if let Some(t) = c.descend(path, depth + 1, path.len()) {
                    out = Some(t.take_focused());
                }
            },
            Node::Window(_) => {},
        }
        let ghost mid = self.nodes();
        proof {
            if let Node::SplitContainer(c1) = mid[k as int] {
                lemma_same_outside_wf(c0, c1, rest);
            }
        }
        assert(k < self.nodes().len());
        proof {
            lemma_nodes_len(*self);
        }
        if let Some(node) = out {
            let pos = if forward {
                k + 1
            } else {
                k
            };
            self.visible.insert(pos, node);
            self.focus = pos;
            proof {
                assert forall|i: int| 0 <= i < self.nodes().len() implies match #[trigger] self.nodes()[i] {
                    Node::SplitContainer(c) => c.nodes().len() > 0 && c.wf(),
                    Node::Window(_) => true,
                } by {
                    if i != pos {
                        let j = if i < pos { i } else { i - 1 };
                        assert(self.nodes()[i] == mid[j]);
                        if j != k {
                            assert(mid[j] == old(self).nodes()[j]);
                            assert(node_ok(old(self).nodes()[j]));
                        }
                    }
                }
                assert forall|j: int| 0 <= j < old(self).nodes().len() && j != k implies self.nodes()[if j < pos {
                    j
                } else {
                    j + 1
                }] == #[trigger] old(self).nodes()[j] by {
                    assert(mid[j] == old(self).nodes()[j]);
                }
            }
        }
    }

    /// Moves the focused entry of the container that `path` leads to in
    /// direction `op`: within that container when its layout takes the
    /// move, else out to the nearest level above whose layout takes it,
    /// beside the entry it came from. A window alone in its container stays
    /// where it is; when the root would cross too, nothing changes.
    #[verifier::spinoff_prover]
    pub fn move_window_at(&mut self, path: &Vec<usize>, op: MoveOp)
        requires
            old(self).wf(),
            old(self).nodes().len() > 0,
            valid_path(*old(self), path@),
        ensures
            final(self).wf(),
            final(self).nodes().len() > 0,
            window_moved(*old(self), *final(self), path@, op),
            final(self).leaves().to_multiset() == old(self).leaves().to_multiset(),
    {
        proof {
            assert(path@.subrange(0, path.len() as int) =~= path@);
        }
        let ghost start = *self;
        self.move_window_at_inner(path, op);
        proof {
            lemma_window_moved_bag(start, *self, path@, op);
        }
    }

    /// `move_window_at` without the count of windows.
    #[verifier::spinoff_prover]
    fn move_window_at_inner(&mut self, path: &Vec<usize>, op: MoveOp)
        requires
            old(self).wf(),
            old(self).nodes().len() > 0,
            valid_path(*old(self), path@),
        ensures
            final(self).wf(),
            final(self).nodes().len() > 0,
            window_moved(*old(self), *final(self), path@, op),
    {
        proof {
            assert(path@.subrange(0, path.len() as int) =~= path@);
        }
        if let Some(d) = self.handler(path, 0, op) {
            let ghost p = path@.subrange(0, d as int);
            proof {
                lemma_valid_path_prefix(*self, path@, d as int);
                lemma_sub_wf(*self, p);
                lemma_sub_at_split(*self, path@, d as int);
                lemma_sub_wf(*self, path@);
            }
            let ghost before = *self;
            if d == path.len() {
                if let Some(c) = self.descend(path, 0, d) {
                    assert(handling_depth(sub_at(before, p), seq![], op) == Some(0nat)) by {
                        lemma_handling_depth_sub(before, path@, op);
                    }
                    let (index, _) = c.layout.move_focus(c.focus, c.visible.len(), op);
                    c.shift_focused(index);
                }
                proof {
                    lemma_same_outside_wf(before, *self, p);
                }
            } else {
                let alone = match self.sub_ref(path, 0) {
                    Some(t) => t.count() <= 1,
                    None => true,
                };
                if !alone {
                    let forward = match op {
                        MoveOp::Right | MoveOp::Down => true,
                        _ => false,
                    };
                    if let Some(h) = self.descend(path, 0, d) {
                        h.pull_up(path, d, forward);
                    }
                    proof {
                        lemma_same_outside_wf(before, *self, p);
                    }
                }
            }
        }
    }

    /// Moves the focused entry of this level in direction `op`, handing the
    /// move to no one: when the layout would cross an end, nothing changes.
    pub fn move_window(&mut self, op: MoveOp)
        requires
            old(self).wf(),
            old(self).nodes().len() > 0,
        ensures
            final(self).wf(),
            step_of(*old(self), op).1 ==> old(self).same(*final(self)),
            !step_of(*old(self), op).1 ==> moved(*old(self), *final(self), step_of(*old(self), op).0),
    {
        let path: Vec<usize> = Vec::new();
        self.move_window_at(&path, op)
    }
}

/// Walks the windows of one level, with their entry indices, skipping
/// nested containers.
pub struct WindowIter<'a> {
    nodes: &'a Vec<Node>,
    index: usize,
}

impl<'a> WindowIter<'a> {
    /// The entries walked over.
    pub closed spec fn entries(&self) -> Seq<Node> {
        self.nodes@
    }

    /// Index of the next entry to look at.
    pub closed spec fn position(&self) -> int {
        self.index as int
    }

    /// The next window entry from `position` on, with its index.
    pub fn next(&mut self) -> (r: Option<(usize, Window)>)
        requires
            old(self).position() <= old(self).entries().len(),
        ensures
            final(self).entries() == old(self).entries(),
            final(self).position() <= final(self).entries().len(),
            forall|j: int|
                old(self).position() <= j < final(self).position() - (if r is Some {
                    1int
                } else {
                    0
                }) ==> #[trigger] old(self).entries()[j] is SplitContainer,
            match r {
                Some((i, w)) => {
                    &&& old(self).position() <= i
                    &&& final(self).position() == i + 1
                    &&& old(self).entries()[i as int] == Node::Window(w)
                },
                None => final(self).position() == old(self).entries().len(),
            },
    {
        while self.index < self.nodes.len()
            invariant
                self.entries() == old(self).entries(),
                old(self).position() <= self.position() <= self.entries().len(),
                forall|j: int|
                    old(self).position() <= j < self.position() ==> #[trigger] self.entries()[j] is SplitContainer,
            decreases self.nodes.len() - self.index,
        {
            let curr = self.index;
            self.index = self.index + 1;
            if let Node::Window(w) = &self.nodes[curr] {
                return Some((curr, *w));
            }
        }
        None
    }
}

/// `a ++ b` holds `w` exactly when `a` or `b` does.
proof fn lemma_concat_contains(a: Seq<Window>, b: Seq<Window>, w: Window)
    ensures
        (a + b).contains(w) <==> a.contains(w) || b.contains(w),
{
    if a.contains(w) {
        let i = choose|i: int| 0 <= i < a.len() && a[i] == w;
        assert((a + b)[i] == w);
    }
    if b.contains(w) {
        let i = choose|i: int| 0 <= i < b.len() && b[i] == w;
        assert((a + b)[a.len() + i] == w);
    }
    if (a + b).contains(w) {
        let i = choose|i: int| 0 <= i < (a + b).len() && (a + b)[i] == w;
        if i < a.len() {
            assert(a[i] == w);
        } else {
            assert(b[i - a.len()] == w);
        }
    }
}

/// Following a path in two steps ends where following it at once does.
pub proof fn lemma_sub_at_split(c: Container, path: Seq<usize>, d: int)
    requires
        valid_path(c, path),
        0 <= d <= path.len(),
    ensures
        valid_path(sub_at(c, path.subrange(0, d)), path.subrange(d, path.len() as int)),
        sub_at(sub_at(c, path.subrange(0, d)), path.subrange(d, path.len() as int)) == sub_at(
            c,
            path,
        ),
    decreases path.len(),
{
    if d == 0 {
        assert(path.subrange(0, 0) =~= Seq::<usize>::empty());
        assert(path.subrange(0, path.len() as int) =~= path);
    } else if let Node::SplitContainer(s) = c.nodes()[path[0] as int] {
        lemma_sub_at_split(s, path.drop_first(), d - 1);
        assert(path.subrange(0, d).drop_first() =~= path.drop_first().subrange(0, d - 1));
        assert(path.subrange(d, path.len() as int) =~= path.drop_first().subrange(
            d - 1,
            path.drop_first().len() as int,
        ));
    }
}

/// The windows under `nodes`, counted.
pub open spec fn bag(nodes: Seq<Node>) -> Multiset<Window> {
    leaves_upto(nodes, nodes.len() as int).to_multiset()
}

/// The windows under the first `k` entries depend on those entries alone.
proof fn lemma_leaves_upto_same(a: Seq<Node>, b: Seq<Node>, k: int)
    requires
        0 <= k <= a.len(),
        k <= b.len(),
        forall|i: int| 0 <= i < k ==> a[i] == b[i],
    ensures
        leaves_upto(a, k) == leaves_upto(b, k),
    decreases k,
{
    if k > 0 {
        lemma_leaves_upto_same(a, b, k - 1);
    }
}

/// The windows under `s` are those under all but its last entry plus those
/// under the last.
proof fn lemma_bag_last(s: Seq<Node>)
    requires
        s.len() > 0,
    ensures
        bag(s) == bag(s.drop_last()).add(node_leaves(s.last()).to_multiset()),
{
    let n = s.len() as int;
    lemma_leaves_upto_same(s, s.drop_last(), n - 1);
    vstd::seq_lib::lemma_multiset_commutative(leaves_upto(s, n - 1), node_leaves(s[n - 1]));
}

/// The windows under `s` are those under `s` without entry `i` plus those
/// under entry `i`.
proof fn lemma_bag_remove(s: Seq<Node>, i: int)
    requires
        0 <= i < s.len(),
    ensures
        bag(s) == bag(s.remove(i)).add(node_leaves(s[i]).to_multiset()),
    decreases s.len(),
{
    lemma_bag_last(s);
    if i == s.len() - 1 {
        assert(s.remove(i) =~= s.drop_last());
    } else {
        let r = s.remove(i);
        lemma_bag_last(r);
        assert(r.drop_last() =~= s.drop_last().remove(i));
        assert(r.last() == s.last());
        lemma_bag_remove(s.drop_last(), i);
        assert(bag(s) =~= bag(r).add(node_leaves(s[i]).to_multiset()));
    }
}

/// A change inside the container at `path` changes the windows of the
/// whole tree as it changes those of that container.
pub proof fn lemma_same_outside_bag(old: Container, new: Container, path: Seq<usize>)
    requires
        same_outside(old, new, path),
    ensures
        bag(new.nodes()).add(bag(sub_at(old, path).nodes())) == bag(old.nodes()).add(
            bag(sub_at(new, path).nodes()),
        ),
    decreases path.len(),
{
    if path.len() == 0 {
        assert(bag(new.nodes()).add(bag(old.nodes())) =~= bag(old.nodes()).add(bag(new.nodes())));
    } else {
        let k = path[0] as int;
        if let (Node::SplitContainer(a), Node::SplitContainer(b)) = (old.nodes()[k], new.nodes()[k]) {
            lemma_same_outside_bag(a, b, path.drop_first());
            lemma_bag_remove(old.nodes(), k);
            lemma_bag_remove(new.nodes(), k);
            assert(new.nodes().remove(k) =~= old.nodes().remove(k));
            let r = bag(old.nodes().remove(k));
            assert(bag(old.nodes()) == r.add(bag(a.nodes())));
            assert(bag(new.nodes()) == r.add(bag(b.nodes())));
            assert(sub_at(old, path) == sub_at(a, path.drop_first()));
            assert(sub_at(new, path) == sub_at(b, path.drop_first()));
            let x = bag(sub_at(old, path).nodes());
            let y = bag(sub_at(new, path).nodes());
            assert(bag(b.nodes()).add(x) == bag(a.nodes()).add(y));
            assert(r.add(bag(b.nodes())).add(x) =~= r.add(bag(a.nodes())).add(y)) by {
                assert forall|w: Window| #[trigger] r.add(bag(b.nodes())).add(x).count(w) == r.add(
                    bag(a.nodes()),
                ).add(y).count(w) by {
                    assert(bag(b.nodes()).add(x).count(w) == bag(a.nodes()).add(y).count(w));
                }
            }
        }
    }
}

/// Moving an entry within a level keeps its windows.
proof fn lemma_moved_bag(a: Container, b: Container, index: int)
    requires
        moved(a, b, index),
        a.wf(),
        0 <= a.focus_index() < a.nodes().len(),
        0 <= index < a.nodes().len(),
    ensures
        bag(b.nodes()) == bag(a.nodes()),
{
    let f = a.focus_index();
    if index != f {
        let node = a.nodes()[f];
        let rest = a.nodes().remove(f);
        let t = if f < index { index - 1 } else { index };
        lemma_bag_remove(a.nodes(), f);
        let ra = bag(rest);
        assert(bag(a.nodes()) == ra.add(node_leaves(node).to_multiset()));
        match rest[t] {
            Node::SplitContainer(c) => {
                if let Node::SplitContainer(c2) = b.nodes()[t] {
                    assert(rest[t] == a.nodes()[if t < f { t } else { t + 1 }]);
                    assert(node_ok(a.nodes()[if t < f { t } else { t + 1 }]));
                    lemma_bag_remove(rest, t);
                    lemma_bag_remove(b.nodes(), t);
                    assert(b.nodes().remove(t) =~= rest.remove(t));
                    let pos = c.insert_position();
                    assert(c2.nodes().remove(pos) =~= c.nodes());
                    lemma_bag_remove(c2.nodes(), pos);
                    assert(node_leaves(b.nodes()[t]).to_multiset() == bag(c2.nodes()));
                    assert(node_leaves(rest[t]).to_multiset() == bag(c.nodes()));
                    let r = bag(rest.remove(t));
                    assert(bag(b.nodes()) == r.add(bag(c2.nodes())));
                    assert(bag(c2.nodes()) == bag(c.nodes()).add(node_leaves(node).to_multiset()));
                    assert(ra == r.add(bag(c.nodes())));
                    assert(bag(b.nodes()) =~= bag(a.nodes()));
                }
            },
            Node::Window(_) => {
                assert(b.nodes().remove(index) =~= rest);
                lemma_bag_remove(b.nodes(), index);
                assert(bag(b.nodes()) =~= bag(a.nodes()));
            },
        }
    } else {
        assert(b.nodes() == a.nodes());
    }
}

/// Taking an entry out to the level above keeps the windows of that level.
proof fn lemma_pulled_bag(a: Container, b: Container, path: Seq<usize>, forward: bool)
    requires
        pulled(a, b, path, forward),
        path.len() > 0,
        valid_path(a, path),
        0 <= sub_at(a, path).focus_index() < sub_at(a, path).nodes().len(),
    ensures
        bag(b.nodes()) == bag(a.nodes()),
{
    let k = path[0] as int;
    let pos = if forward { k + 1 } else { k };
    let kb = if forward { k } else { k + 1 };
    let rest = path.drop_first();
    if let (Node::SplitContainer(c), Node::SplitContainer(c2)) = (a.nodes()[k], b.nodes()[kb]) {
        let t = sub_at(c, rest);
        let t2 = sub_at(c2, rest);
        let node = t.nodes()[t.focus_index()];
        lemma_bag_remove(t.nodes(), t.focus_index());
        lemma_same_outside_bag(c, c2, rest);
        let mid = b.nodes().remove(pos);
        assert forall|j: int| 0 <= j < mid.len() implies #[trigger] mid[j] == a.nodes().update(
            k,
            b.nodes()[kb],
        )[j] by {
            if j != k {
                assert(a.nodes()[j] == b.nodes()[if j < pos { j } else { j + 1 }]);
            }
        }
        assert(mid =~= a.nodes().update(k, b.nodes()[kb]));
        lemma_bag_remove(b.nodes(), pos);
        lemma_bag_remove(mid, k);
        lemma_bag_remove(a.nodes(), k);
        assert(mid.remove(k) =~= a.nodes().remove(k));
        assert(node_leaves(mid[k]).to_multiset() == bag(c2.nodes()));
        assert(node_leaves(a.nodes()[k]).to_multiset() == bag(c.nodes()));
        assert(sub_at(a, path) == t);
        assert(b.nodes()[pos] == node);
        let r = bag(a.nodes().remove(k));
        let nb = node_leaves(node).to_multiset();
        assert(bag(b.nodes()) == bag(mid).add(nb));
        assert(bag(mid) == r.add(bag(c2.nodes())));
        assert(bag(a.nodes()) == r.add(bag(c.nodes())));
        assert(bag(t.nodes()) == bag(t2.nodes()).add(nb)) by {
            assert(t2.nodes() == t.nodes().remove(t.focus_index()));
        }
        assert(bag(c2.nodes()).add(bag(t.nodes())) == bag(c.nodes()).add(bag(t2.nodes())));
        assert forall|w: Window| #[trigger] bag(b.nodes()).count(w) == bag(a.nodes()).count(w) by {
            assert(bag(c2.nodes()).add(bag(t.nodes())).count(w) == bag(c.nodes()).add(
                bag(t2.nodes()),
            ).count(w));
            assert(bag(t.nodes()).count(w) == bag(t2.nodes()).add(nb).count(w));
        }
        assert(bag(b.nodes()) =~= bag(a.nodes()));
    }
}

proof fn lemma_bag_cancel(a: Multiset<Window>, b: Multiset<Window>, x: Multiset<Window>)
    requires
        a.add(x) == b.add(x),
    ensures
        a == b,
{
    broadcast use vstd::multiset::group_multiset_axioms;

    assert forall|w: Window| #[trigger] a.count(w) == b.count(w) by {
        vstd::multiset::axiom_multiset_add(a, x, w);
        vstd::multiset::axiom_multiset_add(b, x, w);
        assert(a.add(x).count(w) == b.add(x).count(w));
    }
    assert(a =~= b);
}

/// A window move keeps every window of the tree, each as often as before.
pub proof fn lemma_window_moved_bag(old: Container, new: Container, path: Seq<usize>, op: MoveOp)
    requires
        old.wf(),
        old.nodes().len() > 0,
        valid_path(old, path),
        window_moved(old, new, path, op),
    ensures
        bag(new.nodes()) == bag(old.nodes()),
{
    if let Some(d) = handling_depth(old, path, op) {
        lemma_handling_depth_sub(old, path, op);
        let p = path.subrange(0, d as int);
        lemma_valid_path_prefix(old, path, d as int);
        lemma_sub_wf(old, p);
        lemma_sub_wf(old, path);
        lemma_sub_at_split(old, path, d as int);
        let h = sub_at(old, p);
        assert(h.nodes().len() > 0) by {
            if d == 0 {
                assert(p =~= Seq::<usize>::empty());
            }
        }
        if d == path.len() {
            lemma_same_outside_bag(old, new, p);
            assert(path =~= p);
            lemma_moved_bag(h, sub_at(new, p), step_of(h, op).0);
            lemma_bag_cancel(bag(new.nodes()), bag(old.nodes()), bag(h.nodes()));
        } else if sub_at(old, path).nodes().len() > 1 {
            lemma_same_outside_bag(old, new, p);
            lemma_pulled_bag(
                sub_at(old, p),
                sub_at(new, p),
                path.subrange(d as int, path.len() as int),
                is_forward(op),
            );
            lemma_bag_cancel(bag(new.nodes()), bag(old.nodes()), bag(h.nodes()));
        } else {
            assert(new.nodes() == old.nodes());
        }
    } else {
        assert(new.nodes() == old.nodes());
    }
}

/// A level has at most `usize::MAX` entries.
proof fn lemma_nodes_len(c: Container)
    ensures
        c.nodes().len() <= usize::MAX,
{
    assert(c.visible.len() == c.nodes().len());
}

/// A window is under the first `k` entries exactly when it is under one of
/// them.
proof fn lemma_leaves_upto_contains(nodes: Seq<Node>, k: int, w: Window)
    requires
        0 <= k <= nodes.len(),
    ensures
        leaves_upto(nodes, k).contains(w) <==> exists|j: int|
            0 <= j < k && #[trigger] node_leaves(nodes[j]).contains(w),
    decreases k,
{
    if k > 0 {
        lemma_leaves_upto_contains(nodes, k - 1, w);
        lemma_concat_contains(leaves_upto(nodes, k - 1), node_leaves(nodes[k - 1]), w);
        if exists|j: int| 0 <= j < k && #[trigger] node_leaves(nodes[j]).contains(w) {
            let j = choose|j: int| 0 <= j < k && #[trigger] node_leaves(nodes[j]).contains(w);
            if j < k - 1 {
                assert(exists|j: int| 0 <= j < k - 1 && #[trigger] node_leaves(nodes[j]).contains(w));
            }
        }
    }
}

/// `n` is a nested container with `w` somewhere in it.
spec fn in_nested(n: Node, w: Window) -> bool {
    match n {
        Node::SplitContainer(s) => s.leaves().contains(w),
        Node::Window(_) => false,
    }
}

/// `find_path` finds exactly the windows of the tree.
#[verifier::spinoff_prover]
pub proof fn lemma_find_path_complete(c: Container, w: Window)
    ensures
        find_path(c, w) is Some <==> c.leaves().contains(w),
    decreases c.nodes(), c.nodes().len() + 1,
{
    let nodes = c.nodes();
    lemma_leaves_upto_contains(nodes, nodes.len() as int, w);
    lemma_find_path_from_complete(nodes, w, 0);
    if c.holds(w) {
        let j = choose|j: int| 0 <= j < nodes.len() && nodes[j] == Node::Window(w);
        assert(node_leaves(nodes[j]) == seq![w]);
        assert(seq![w][0] == w);
        assert(node_leaves(nodes[j]).contains(w));
    }
    if c.leaves().contains(w) && !c.holds(w) {
        let j = choose|j: int| 0 <= j < nodes.len() && #[trigger] node_leaves(nodes[j]).contains(w);
        if let Node::Window(x) = nodes[j] {
            assert(node_leaves(nodes[j]) == seq![x]);
            assert(x == w);
        }
    }
    if find_path_from(nodes, w, 0) is Some {
        let j = choose|j: int| 0 <= j < nodes.len() && #[trigger] in_nested(nodes[j], w);
        assert(node_leaves(nodes[j]).contains(w));
    }
    if c.leaves().contains(w) && !c.holds(w) {
        let j = choose|j: int| 0 <= j < nodes.len() && #[trigger] node_leaves(nodes[j]).contains(w);
        assert(in_nested(nodes[j], w));
    }
}

proof fn lemma_find_path_from_complete(nodes: Seq<Node>, w: Window, k: int)
    requires
        0 <= k,
    ensures
        find_path_from(nodes, w, k) is Some <==> exists|j: int|
            k <= j < nodes.len() && #[trigger] in_nested(nodes[j], w),
    decreases nodes, nodes.len() - k,
{
    if k < nodes.len() {
        lemma_find_path_from_complete(nodes, w, k + 1);
        if let Node::SplitContainer(s) = nodes[k] {
            lemma_find_path_complete(s, w);
        }
        if in_nested(nodes[k], w) {
            assert(find_path_from(nodes, w, k) is Some);
        } else {
            assert(find_path_from(nodes, w, k) == find_path_from(nodes, w, k + 1));
            if exists|j: int| k <= j < nodes.len() && #[trigger] in_nested(nodes[j], w) {
                let j = choose|j: int| k <= j < nodes.len() && #[trigger] in_nested(nodes[j], w);
                assert(j != k);
            }
        }
    }
}

/// A window under the first `k` entries is under all of them.
proof fn lemma_leaves_prefix(nodes: Seq<Node>, k: int, w: Window)
    requires
        0 <= k <= nodes.len(),
        leaves_upto(nodes, k).contains(w),
    ensures
        leaves_upto(nodes, nodes.len() as int).contains(w),
    decreases nodes.len() - k,
{
    if k < nodes.len() {
        lemma_concat_contains(leaves_upto(nodes, k), node_leaves(nodes[k]), w);
        lemma_leaves_prefix(nodes, k + 1, w);
    }
}

proof fn lemma_find_path_from_valid(nodes: Seq<Node>, w: Window, k: int)
    requires
        find_path_from(nodes, w, k) is Some,
        nodes.len() <= usize::MAX,
    ensures
        find_path_from(nodes, w, k) matches Some(p) && p.len() > 0 && p[0] < nodes.len()
            && match nodes[p[0] as int] {
            Node::SplitContainer(s) => valid_path(s, p.drop_first()) && sub_at(
                s,
                p.drop_first(),
            ).holds(w),
            Node::Window(_) => false,
        },
    decreases nodes, nodes.len() - k,
{
    if 0 <= k < nodes.len() {
        match nodes[k] {
            Node::SplitContainer(s) => match find_path(s, w) {
                Some(q) => {
                    lemma_find_path_valid(s, w);
                    let p = seq![k as usize] + q;
                    assert(p.drop_first() =~= q);
                },
                None => lemma_find_path_from_valid(nodes, w, k + 1),
            },
            Node::Window(_) => lemma_find_path_from_valid(nodes, w, k + 1),
        }
    }
}

/// A level that holds `w` somewhere below a path through containers has
/// entries.
pub proof fn lemma_path_nonempty(c: Container, path: Seq<usize>, w: Window)
    requires
        valid_path(c, path),
        sub_at(c, path).holds(w),
    ensures
        c.nodes().len() > 0,
{
}

/// A prefix of a path through containers leads through containers too.
pub proof fn lemma_valid_path_prefix(c: Container, path: Seq<usize>, d: int)
    requires
        valid_path(c, path),
        0 <= d <= path.len(),
    ensures
        valid_path(c, path.subrange(0, d)),
    decreases path.len(),
{
    if d > 0 {
        if let Node::SplitContainer(s) = c.nodes()[path[0] as int] {
            lemma_valid_path_prefix(s, path.drop_first(), d - 1);
            assert(path.subrange(0, d).drop_first() =~= path.drop_first().subrange(0, d - 1));
        }
    }
}

/// The container a path leads to in a well-formed tree is well formed, and
/// holds entries unless it is the root.
pub proof fn lemma_sub_wf(c: Container, path: Seq<usize>)
    requires
        c.wf(),
        valid_path(c, path),
    ensures
        sub_at(c, path).wf(),
        path.len() > 0 ==> sub_at(c, path).nodes().len() > 0,
    decreases path.len(),
{
    if path.len() > 0 {
        let i = path[0] as int;
        assert(match c.nodes()[i] {
            Node::SplitContainer(s) => s.nodes().len() > 0 && s.wf(),
            Node::Window(_) => true,
        });
        if let Node::SplitContainer(s) = c.nodes()[i] {
            lemma_sub_wf(s, path.drop_first());
        }
    }
}

/// A tree stays well formed through a change at `path` that leaves the
/// container there well formed and, if it had entries, with entries.
#[verifier::spinoff_prover]
pub proof fn lemma_same_outside_wf(old: Container, new: Container, path: Seq<usize>)
    requires
        old.wf(),
        same_outside(old, new, path),
        sub_at(new, path).wf(),
        sub_at(old, path).nodes().len() > 0 ==> sub_at(new, path).nodes().len() > 0,
    ensures
        new.wf(),
        old.nodes().len() > 0 ==> new.nodes().len() > 0,
    decreases path.len(),
{
    if path.len() > 0 {
        let k = path[0] as int;
        if let (Node::SplitContainer(a), Node::SplitContainer(b)) = (
            old.nodes()[k],
            new.nodes()[k],
        ) {
            assert(match old.nodes()[k] {
                Node::SplitContainer(c) => c.nodes().len() > 0 && c.wf(),
                Node::Window(_) => true,
            });
            lemma_same_outside_wf(a, b, path.drop_first());
            assert forall|i: int| 0 <= i < new.nodes().len() implies match #[trigger] new.nodes()[i] {
                Node::SplitContainer(c) => c.nodes().len() > 0 && c.wf(),
                Node::Window(_) => true,
            } by {
                if i != k {
                    assert(new.nodes()[i] == old.nodes()[i]);
                    assert(match old.nodes()[i] {
                        Node::SplitContainer(c) => c.nodes().len() > 0 && c.wf(),
                        Node::Window(_) => true,
                    });
                }
            }
        }
    }
}

/// The level that takes a move, when there is one, is found along the
/// path and does not cross an end itself.
pub proof fn lemma_handling_depth_sub(c: Container, path: Seq<usize>, op: MoveOp)
    requires
        handling_depth(c, path, op) is Some,
    ensures
        handling_depth(c, path, op)->0 <= path.len(),
        !step_of(sub_at(c, path.subrange(0, handling_depth(c, path, op)->0 as int)), op).1,
        handling_depth(sub_at(c, path.subrange(0, handling_depth(c, path, op)->0 as int)), seq![], op)
            == Some(0nat),
    decreases path.len(),
{
    let d = handling_depth(c, path, op)->0;
    if d > 0 {
        if let Node::SplitContainer(s) = c.nodes()[path[0] as int] {
            lemma_handling_depth_sub(s, path.drop_first(), op);
            assert(path.subrange(0, d as int).drop_first() =~= path.drop_first().subrange(
                0,
                d - 1,
            ));
        }
    }
}

/// A path that `find_path` gives leads through nested containers to one
/// that holds the window.
pub proof fn lemma_find_path_valid(c: Container, w: Window)
    requires
        find_path(c, w) is Some,
    ensures
        valid_path(c, find_path(c, w)->0),
        sub_at(c, find_path(c, w)->0).holds(w),
    decreases c.nodes(), c.nodes().len() + 1,
{
    if !c.holds(w) {
        lemma_nodes_len(c);
        lemma_find_path_from_valid(c.nodes(), w, 0);
    }
}

/// Laying a tree out places each of its windows once, in layout order,
/// each within the area; so when no window occurs twice in the tree, no
/// window gets two rectangles.
pub proof fn lemma_placements(c: Container, area: Rect)
    requires
        area.fits(),
    ensures
        c.placements(area).len() == c.leaves().len(),
        forall|i: int|
            0 <= i < c.leaves().len() ==> #[trigger] c.placements(area)[i].0 == c.leaves()[i]
                && c.placements(area)[i].1.inside(area),
        c.leaves().no_duplicates() ==> forall|i: int, j: int|
            0 <= i < j < c.leaves().len() ==> #[trigger] c.placements(area)[i].0
                != #[trigger] c.placements(area)[j].0,
{
    lemma_placements_upto(c.layout_spec(), c.nodes(), area, c.nodes().len() as int);
}

/// `placed` gives the windows of `leaves`, in order, each a rectangle within
/// `area`.
spec fn placed_as(placed: Seq<(Window, Rect)>, leaves: Seq<Window>, area: Rect) -> bool {
    &&& placed.len() == leaves.len()
    &&& forall|i: int|
        #![trigger placed[i]]
        0 <= i < leaves.len() ==> placed[i].0 == leaves[i] && placed[i].1.inside(area)
}

#[verifier::spinoff_prover]
proof fn lemma_placed_concat(
    placed: Seq<(Window, Rect)>,
    leaves: Seq<Window>,
    more_placed: Seq<(Window, Rect)>,
    more_leaves: Seq<Window>,
    area: Rect,
    slot: Rect,
)
    requires
        placed_as(placed, leaves, area),
        placed_as(more_placed, more_leaves, slot),
        slot.inside(area),
    ensures
        placed_as(placed + more_placed, leaves + more_leaves, area),
{
    let p = placed + more_placed;
    let l = leaves + more_leaves;
    assert forall|i: int| 0 <= i < l.len() implies #[trigger] p[i].0 == l[i] && p[i].1.inside(
        area,
    ) by {
        if i >= leaves.len() {
            let k = i - leaves.len();
            assert(p[i] == more_placed[k]);
            assert(l[i] == more_leaves[k]);
            assert(more_placed[k].0 == more_leaves[k] && more_placed[k].1.inside(slot));
        } else {
            assert(p[i] == placed[i]);
            assert(l[i] == leaves[i]);
            assert(placed[i].0 == leaves[i] && placed[i].1.inside(area));
        }
    }
}

#[verifier::spinoff_prover]
proof fn lemma_placements_upto(layout: SplitLayout, nodes: Seq<Node>, area: Rect, k: int)
    requires
        area.fits(),
        0 <= k <= nodes.len(),
    ensures
        placed_as(placements_upto(layout, nodes, area, k), leaves_upto(nodes, k), area),
    decreases nodes, k,
{
    if k > 0 {
        let slot = layout.spec_slot(area, nodes.len() as int, k - 1);
        lemma_placements_upto(layout, nodes, area, k - 1);
        lemma_slot_inside(layout, area, nodes.len() as int, k - 1);
        lemma_node_placements(nodes[k - 1], slot);
        lemma_placed_concat(
            placements_upto(layout, nodes, area, k - 1),
            leaves_upto(nodes, k - 1),
            node_placements(nodes[k - 1], slot),
            node_leaves(nodes[k - 1]),
            area,
            slot,
        );
    }
}

#[verifier::spinoff_prover]
proof fn lemma_node_placements(n: Node, area: Rect)
    requires
        area.fits(),
    ensures
        placed_as(node_placements(n, area), node_leaves(n), area),
    decreases n, 0int,
{
    match n {
        Node::Window(w) => {
            assert(node_placements(n, area)[0] == (w, area));
        },
        Node::SplitContainer(c) => {
            lemma_placements_upto(c.layout_spec(), c.nodes(), area, c.nodes().len() as int);
        },
    }
}

/// Adding a window that a level does not hold yet, then removing that
/// window again, gives back the level's entries and focus. `added` is the
/// level as `add_window` leaves it; the removal then takes the entry the
/// addition put in, is allowed, and puts the focus back where it was.
pub proof fn lemma_add_then_remove(c: Container, added: Container, w: Window)
    requires
        c.wf(),
        !c.holds(w),
        added.nodes() == c.inserted_nodes(Node::Window(w)),
        added.focus_index() == c.insert_position(),
    ensures
        added.holds(w),
        added.nodes().index_of_first(Node::Window(w)) matches Some(k) && {
            &&& k == 0 || added.focus_index() > 0
            &&& added.nodes().remove(k) == c.nodes()
            &&& added.focus_after_removal(k) == c.focus_index()
            &&& !added.removal_strands_focus(k)
        },
{
    let nodes = added.nodes();
    let p = c.insert_position();
    assert(nodes[p] == Node::Window(w));
    assert forall|j: int| 0 <= j < p implies nodes[j] != Node::Window(w) by {
        assert(nodes[j] == c.nodes()[j]);
    }
    nodes.index_of_first_ensures(Node::Window(w));
    assert(nodes.remove(p) =~= c.nodes());
    let k = nodes.index_of_first(Node::Window(w))->0;
    if k < p {
        assert(nodes[k] == Node::Window(w));
    }
}

} // verus!
