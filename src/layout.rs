use vstd::prelude::*;
use vstd::arithmetic::div_mod::{
    lemma_div_pos_is_pos, lemma_fundamental_div_mod, lemma_fundamental_div_mod_converse,
};
use vstd::arithmetic::mul::lemma_mul_inequality;

use crate::container::Node;

verus! {

/// An axis-aligned rectangle in screen coordinates.
#[derive(Clone, Copy, Debug, PartialEq, Eq, Structural)]
pub struct Rect {
    pub x: u32,
    pub y: u32,
    pub width: u32,
    pub height: u32,
}

impl Rect {
    /// Both far edges are representable.
    pub open spec fn fits(self) -> bool {
        &&& self.x + self.width <= u32::MAX
        &&& self.y + self.height <= u32::MAX
    }

    /// `self` lies within `area`.
    pub open spec fn inside(self, area: Rect) -> bool {
        &&& area.x <= self.x
        &&& self.x + self.width <= area.x + area.width
        &&& area.y <= self.y
        &&& self.y + self.height <= area.y + area.height
    }
}

/// A direction of focus or window movement.
#[derive(Clone, Copy, Debug, PartialEq, Eq, Structural)]
pub enum MoveOp {
    Up,
    Down,
    Left,
    Right,
    Master,
}

/// An adjustment request for a layout.
#[derive(Clone, Debug)]
pub enum LayoutMsg {
    Increase,
    Decrease,
    IncreaseMaster,
    DecreaseMaster,
    Custom(String),
}

/// A step towards the far end of a row of `count` slots, wrapping to the
/// first slot past the end; the flag tells whether it wrapped.
pub open spec fn step_forward(curr: int, count: int) -> (int, bool) {
    if curr == count - 1 {
        (0, true)
    } else {
        (curr + 1, false)
    }
}

/// A step towards the near end of a row of `count` slots, wrapping to the
/// last slot past the start; the flag tells whether it wrapped.
pub open spec fn step_backward(curr: int, count: int) -> (int, bool) {
    if curr == 0 {
        (count - 1, true)
    } else {
        (curr - 1, false)
    }
}

/// Slot `i` of `count` equal columns of `area`; the last one takes what
/// integer division leaves over.
pub open spec fn column(area: Rect, count: int, i: int) -> Rect {
    let w = area.width as int / count;
    Rect {
        x: (area.x + i * w) as u32,
        y: area.y,
        width: (if i == count - 1 { area.width - i * w } else { w }) as u32,
        height: area.height,
    }
}

/// Slot `i` of `count` equal rows of `area`; the last one takes what
/// integer division leaves over.
pub open spec fn row(area: Rect, count: int, i: int) -> Rect {
    let h = area.height as int / count;
    Rect {
        x: area.x,
        y: (area.y + i * h) as u32,
        width: area.width,
        height: (if i == count - 1 { area.height - i * h } else { h }) as u32,
    }
}

/// The first `i + 1` of `count` equal shares of `total` fit in `total`.
pub proof fn lemma_share_offset(total: int, count: int, i: int)
    requires
        0 < count,
        0 <= i < count,
        0 <= total,
    ensures
        0 <= total / count,
        0 <= i * (total / count),
        i * (total / count) + total / count <= total,
{
    let w = total / count;
    lemma_fundamental_div_mod(total, count);
    lemma_div_pos_is_pos(total, count);
    lemma_mul_inequality(i + 1, count, w);
    assert((i + 1) * w == i * w + w) by (nonlinear_arith);
    assert(0 <= i * w) by (nonlinear_arith)
        requires 0 <= i, 0 <= w;
    assert(count * w == w * count) by (nonlinear_arith);
}

/// A strategy that places the entries of one container level and says how
/// focus moves among them.
pub trait Layout: Sized {
    /// Where a move from slot `curr` of `count` leads, and whether it
    /// crossed an end of this level.
    spec fn spec_move_focus(&self, curr: int, count: int, op: MoveOp) -> (int, bool);

    /// The rectangle of slot `i` when `count` slots share `area`.
    spec fn spec_slot(&self, area: Rect, count: int, i: int) -> Rect;

    fn name(&self) -> String;

    fn send_msg(&mut self, msg: LayoutMsg)
        ensures
            *final(self) == *old(self),
    ;

    fn move_focus(&self, curr: usize, count: usize, op: MoveOp) -> (r: (usize, bool))
        requires
            curr < count,
        ensures
            r.0 < count,
            (r.0 as int, r.1) == self.spec_move_focus(curr as int, count as int, op),
    ;

    fn apply(&self, area: Rect, windows: &Vec<Node>) -> (r: Vec<Rect>)
        requires
            area.fits(),
        ensures
            r.len() == windows.len(),
            forall|i: int|
                0 <= i < r.len() ==> #[trigger] r[i] == self.spec_slot(area, windows.len() as int, i)
                    && r[i].inside(area),
    ;
}

/// Side by side, left to right.
#[derive(Clone, Copy, Debug, PartialEq, Eq, Structural)]
pub struct HSplitLayout;

/// Stacked, top to bottom.
#[derive(Clone, Copy, Debug, PartialEq, Eq, Structural)]
pub struct VSplitLayout;

/// The layout a container level uses.
#[derive(Clone, Copy, Debug, PartialEq, Eq, Structural)]
pub enum SplitLayout {
    Horizontal(HSplitLayout),
    Vertical(VSplitLayout),
}

impl HSplitLayout {
    pub fn new() -> (r: SplitLayout)
        ensures
            r == SplitLayout::Horizontal(HSplitLayout),
    {
        SplitLayout::Horizontal(HSplitLayout)
    }
}

impl VSplitLayout {
    pub fn new() -> (r: SplitLayout)
        ensures
            r == SplitLayout::Vertical(VSplitLayout),
    {
        SplitLayout::Vertical(VSplitLayout)
    }
}

/// `count` slots of `extent` units starting at `start`: the offset of slot
/// `i` and its length, the last slot taking the remainder.
fn split_extent(start: u32, extent: u32, count: usize, i: usize) -> (r: (u32, u32))
    requires
        start + extent <= u32::MAX,
        i < count,
    ensures
        r.0 == start + i * (extent as int / count as int),
        r.1 == if i == count - 1 {
            extent - i * (extent as int / count as int)
        } else {
            extent as int / count as int
        },
{
    let share: u64 = extent as u64 / count as u64;
    proof {
        lemma_share_offset(extent as int, count as int, i as int);
    }
    let offset: u64 = i as u64 * share;
    let len: u64 = if i + 1 == count {
        extent as u64 - offset
    } else {
        share
    };
    ((start as u64 + offset) as u32, len as u32)
}

/// `count` columns (or rows) of `area`.
fn tile(area: Rect, count: usize, horizontal: bool) -> (r: Vec<Rect>)
    requires
        area.fits(),
    ensures
        r.len() == count,
        forall|i: int|
            0 <= i < count ==> #[trigger] r[i] == (if horizontal {
                column(area, count as int, i)
            } else {
                row(area, count as int, i)
            }) && r[i].inside(area),
{
    let mut rects: Vec<Rect> = Vec::new();
    let mut i: usize = 0;
    while i < count
        invariant
            area.fits(),
            i <= count,
            rects.len() == i,
            forall|j: int|
                0 <= j < i ==> #[trigger] rects[j] == (if horizontal {
                    column(area, count as int, j)
                } else {
                    row(area, count as int, j)
                }) && rects[j].inside(area),
        decreases count - i,
    {
        proof {
            lemma_share_offset(area.width as int, count as int, i as int);
            lemma_share_offset(area.height as int, count as int, i as int);
        }
        let rect = if horizontal {
            let (x, width) = split_extent(area.x, area.width, count, i);
            Rect { x, y: area.y, width, height: area.height }
        } else {
            let (y, height) = split_extent(area.y, area.height, count, i);
            Rect { x: area.x, y, width: area.width, height }
        };
        rects.push(rect);
        i += 1;
    }
    rects
}

impl Layout for HSplitLayout {
    open spec fn spec_move_focus(&self, curr: int, count: int, op: MoveOp) -> (int, bool) {
        match op {
            MoveOp::Left => step_backward(curr, count),
            MoveOp::Right => step_forward(curr, count),
            _ => (curr, true),
        }
    }

    open spec fn spec_slot(&self, area: Rect, count: int, i: int) -> Rect {
        column(area, count, i)
    }

    fn name(&self) -> (r: String)
        ensures
            r@ == "Horizontal"@,
    {
        "Horizontal".to_owned()
    }

    fn send_msg(&mut self, msg: LayoutMsg) {
    }

    fn move_focus(&self, curr: usize, count: usize, op: MoveOp) -> (r: (usize, bool)) {
        match op {
            MoveOp::Left => {
                if curr == 0 {
                    (count - 1, true)
                } else {
                    (curr - 1, false)
                }
            },
            MoveOp::Right => {
                if curr == count - 1 {
                    (0, true)
                } else {
                    (curr + 1, false)
                }
            },
            _ => (curr, true),
        }
    }

    fn apply(&self, area: Rect, windows: &Vec<Node>) -> (r: Vec<Rect>) {
        tile(area, windows.len(), true)
    }
}

impl Layout for VSplitLayout {
    open spec fn spec_move_focus(&self, curr: int, count: int, op: MoveOp) -> (int, bool) {
        match op {
            MoveOp::Up => step_backward(curr, count),
            MoveOp::Down => step_forward(curr, count),
            _ => (curr, true),
        }
    }

    open spec fn spec_slot(&self, area: Rect, count: int, i: int) -> Rect {
        row(area, count, i)
    }

    fn name(&self) -> (r: String)
        ensures
            r@ == "Vertical"@,
    {
        "Vertical".to_owned()
    }

    fn send_msg(&mut self, msg: LayoutMsg) {
    }

    fn move_focus(&self, curr: usize, count: usize, op: MoveOp) -> (r: (usize, bool)) {
        match op {
            MoveOp::Up => {
                if curr == 0 {
                    (count - 1, true)
                } else {
                    (curr - 1, false)
                }
            },
            MoveOp::Down => {
                if curr == count - 1 {
                    (0, true)
                } else {
                    (curr + 1, false)
                }
            },
            _ => (curr, true),
        }
    }

    fn apply(&self, area: Rect, windows: &Vec<Node>) -> (r: Vec<Rect>) {
        tile(area, windows.len(), false)
    }
}

impl Layout for SplitLayout {
    open spec fn spec_move_focus(&self, curr: int, count: int, op: MoveOp) -> (int, bool) {
        match self {
            SplitLayout::Horizontal(l) => l.spec_move_focus(curr, count, op),
            SplitLayout::Vertical(l) => l.spec_move_focus(curr, count, op),
        }
    }

    open spec fn spec_slot(&self, area: Rect, count: int, i: int) -> Rect {
        match self {
            SplitLayout::Horizontal(l) => l.spec_slot(area, count, i),
            SplitLayout::Vertical(l) => l.spec_slot(area, count, i),
        }
    }

    fn name(&self) -> (r: String)
        ensures
            r@ == match self {
                SplitLayout::Horizontal(_) => "Horizontal"@,
                SplitLayout::Vertical(_) => "Vertical"@,
            },
    {
        match self {
            SplitLayout::Horizontal(l) => l.name(),
            SplitLayout::Vertical(l) => l.name(),
        }
    }

    fn send_msg(&mut self, msg: LayoutMsg) {
        match self {
            SplitLayout::Horizontal(l) => l.send_msg(msg),
            SplitLayout::Vertical(l) => l.send_msg(msg),
        }
    }

    fn move_focus(&self, curr: usize, count: usize, op: MoveOp) -> (r: (usize, bool)) {
        match self {
            SplitLayout::Horizontal(l) => l.move_focus(curr, count, op),
            SplitLayout::Vertical(l) => l.move_focus(curr, count, op),
        }
    }

    fn apply(&self, area: Rect, windows: &Vec<Node>) -> (r: Vec<Rect>) {
        match self {
            SplitLayout::Horizontal(l) => l.apply(area, windows),
            SplitLayout::Vertical(l) => l.apply(area, windows),
        }
    }
}

/// Sum of the widths of the first `k` of `count` columns of `area`.
pub open spec fn column_widths(area: Rect, count: int, k: int) -> int
    decreases k,
{
    if k <= 0 {
        0
    } else {
        column_widths(area, count, k - 1) + column(area, count, k - 1).width
    }
}

/// The columns of a horizontal split cover the width of `area` exactly:
/// the first starts at its left edge, each next one where the one before
/// ends, and every one lies within `area`.
#[verifier::spinoff_prover]
pub proof fn lemma_columns_tile(area: Rect, count: int)
    requires
        area.fits(),
        count > 0,
    ensures
        column_widths(area, count, count) == area.width,
        column(area, count, 0).x == area.x,
        forall|i: int|
            0 <= i < count - 1 ==> #[trigger] column(area, count, i).x + column(area, count, i).width
                == column(area, count, i + 1).x,
        forall|i: int| 0 <= i < count ==> #[trigger] column(area, count, i).inside(area),
{
    let w = area.width as int / count;
    assert forall|k: int| 0 <= k < count implies #[trigger] column_widths(area, count, k) == k * w by {
        lemma_column_widths_prefix(area, count, k);
    }
    lemma_share_offset(area.width as int, count, count - 1);
    assert(column_widths(area, count, count - 1) == (count - 1) * w);
    assert(column(area, count, count - 1).width == area.width - (count - 1) * w);
    assert(column_widths(area, count, count) == column_widths(area, count, count - 1) + column(
        area,
        count,
        count - 1,
    ).width);
    assert(0 * w == 0) by (nonlinear_arith);
    assert forall|i: int|
        0 <= i < count - 1 implies #[trigger] column(area, count, i).x + column(area, count, i).width
        == column(area, count, i + 1).x by {
        lemma_share_offset(area.width as int, count, i);
        lemma_share_offset(area.width as int, count, i + 1);
        assert((i + 1) * w == i * w + w) by (nonlinear_arith);
    }
    assert forall|i: int| 0 <= i < count implies #[trigger] column(area, count, i).inside(area) by {
        lemma_share_offset(area.width as int, count, i);
    }
}

proof fn lemma_column_widths_prefix(area: Rect, count: int, k: int)
    requires
        area.fits(),
        0 <= k < count,
    ensures
        column_widths(area, count, k) == k * (area.width as int / count),
    decreases k,
{
    let w = area.width as int / count;
    if k > 0 {
        lemma_column_widths_prefix(area, count, k - 1);
        lemma_share_offset(area.width as int, count, k - 1);
        assert((k - 1) * w + w == k * w) by (nonlinear_arith);
    } else {
        assert(0 * w == 0) by (nonlinear_arith);
    }
}

/// A slot of any layout lies within the area the slots share.
pub proof fn lemma_slot_inside(layout: SplitLayout, area: Rect, count: int, i: int)
    requires
        area.fits(),
        0 <= i < count,
    ensures
        layout.spec_slot(area, count, i).inside(area),
        layout.spec_slot(area, count, i).fits(),
{
    lemma_share_offset(area.width as int, count, i);
    lemma_share_offset(area.height as int, count, i);
}

/// `op` runs along the axis that `layout` lays its slots out on.
pub open spec fn along_axis(layout: SplitLayout, op: MoveOp) -> bool {
    match layout {
        SplitLayout::Horizontal(_) => op == MoveOp::Left || op == MoveOp::Right,
        SplitLayout::Vertical(_) => op == MoveOp::Up || op == MoveOp::Down,
    }
}

/// The slot reached from `curr` after `k` moves in direction `op`, each
/// taking the index the layout gives, wrapped or not.
pub open spec fn focus_after(layout: SplitLayout, curr: int, count: int, op: MoveOp, k: nat) -> int
    decreases k,
{
    if k == 0 {
        curr
    } else {
        layout.spec_move_focus(focus_after(layout, curr, count, op, (k - 1) as nat), count, op).0
    }
}

/// `op` points towards the far end of a row of slots.
pub open spec fn is_forward(op: MoveOp) -> bool {
    op == MoveOp::Right || op == MoveOp::Down
}

#[verifier::spinoff_prover]
proof fn lemma_focus_after_mod(layout: SplitLayout, curr: int, count: int, op: MoveOp, k: nat)
    requires
        along_axis(layout, op),
        0 <= curr < count,
    ensures
        is_forward(op) ==> focus_after(layout, curr, count, op, k) == (curr + k) % count,
        !is_forward(op) ==> focus_after(layout, curr, count, op, k) == (curr - k) % count,
    decreases k,
{
    lemma_fundamental_div_mod(curr + k, count);
    lemma_fundamental_div_mod(curr - k, count);
    if k > 0 {
        lemma_focus_after_mod(layout, curr, count, op, (k - 1) as nat);
        let x = focus_after(layout, curr, count, op, (k - 1) as nat);
        if is_forward(op) {
            let q = (curr + k - 1) / count;
            lemma_fundamental_div_mod(curr + k - 1, count);
            if x + 1 < count {
                lemma_fundamental_div_mod_converse(curr + k, count, q, x + 1);
            } else {
                assert(curr + k == (q + 1) * count + 0) by (nonlinear_arith)
                    requires curr + k - 1 == count * q + x, x + 1 == count;
                lemma_fundamental_div_mod_converse(curr + k, count, q + 1, 0);
            }
        } else {
            let q = (curr - (k - 1)) / count;
            lemma_fundamental_div_mod(curr - (k - 1), count);
            if x > 0 {
                lemma_fundamental_div_mod_converse(curr - k, count, q, x - 1);
            } else {
                assert(curr - k == (q - 1) * count + (count - 1)) by (nonlinear_arith)
                    requires curr - (k - 1) == count * q + x, x == 0;
                lemma_fundamental_div_mod_converse(curr - k, count, q - 1, count - 1);
            }
        }
    } else {
        lemma_fundamental_div_mod_converse(curr, count, 0, curr);
    }
}

/// Moving the focus `count` times in one direction along a level's own
/// axis, taking each wrapped index, comes back to the starting slot.
pub proof fn lemma_full_cycle(layout: SplitLayout, curr: int, count: int, op: MoveOp)
    requires
        along_axis(layout, op),
        0 <= curr < count,
    ensures
        focus_after(layout, curr, count, op, count as nat) == curr,
{
    lemma_focus_after_mod(layout, curr, count, op, count as nat);
    lemma_fundamental_div_mod_converse(curr + count, count, 1, curr);
    lemma_fundamental_div_mod_converse(curr - count, count, -1, curr);
}

} // verus!
