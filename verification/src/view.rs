//! View state machine for the connectivity visualization: which of the four
//! graph views is active, the scroll position within it, and the node
//! selection.  Every mode transition resets the scroll offset, since each
//! mode scrolls over a differently sized list; the node selection is kept
//! across mode switches on purpose.

use vstd::prelude::*;

verus! {

/// The four graph views, in their fixed cyclic order.
#[derive(Clone, Copy, Debug, PartialEq, Eq, Structural)]
pub enum ViewMode {
    /// Summary statistics and top hubs.
    Overview,
    /// Detailed node list with scrolling and selection.
    Nodes,
    /// Edge list with weights.
    Edges,
    /// Connected components.
    Components,
}

/// The successor of a mode in the cycle
/// Overview -> Nodes -> Edges -> Components -> Overview.
pub open spec fn next_mode(m: ViewMode) -> ViewMode {
    match m {
        ViewMode::Overview => ViewMode::Nodes,
        ViewMode::Nodes => ViewMode::Edges,
        ViewMode::Edges => ViewMode::Components,
        ViewMode::Components => ViewMode::Overview,
    }
}

/// The predecessor of a mode in the cycle.
pub open spec fn prev_mode(m: ViewMode) -> ViewMode {
    match m {
        ViewMode::Overview => ViewMode::Components,
        ViewMode::Nodes => ViewMode::Overview,
        ViewMode::Edges => ViewMode::Nodes,
        ViewMode::Components => ViewMode::Edges,
    }
}

impl ViewMode {
    /// The next mode in the cycle, wrapping at the end.
    pub fn next(&self) -> (r: ViewMode)
        ensures
            r == next_mode(*self),
    {
        match self {
            ViewMode::Overview => ViewMode::Nodes,
            ViewMode::Nodes => ViewMode::Edges,
            ViewMode::Edges => ViewMode::Components,
            ViewMode::Components => ViewMode::Overview,
        }
    }

    /// The previous mode in the cycle, wrapping at the start.
    pub fn prev(&self) -> (r: ViewMode)
        ensures
            r == prev_mode(*self),
    {
        match self {
            ViewMode::Overview => ViewMode::Components,
            ViewMode::Nodes => ViewMode::Overview,
            ViewMode::Edges => ViewMode::Nodes,
            ViewMode::Components => ViewMode::Edges,
        }
    }

    /// The mode's display name.
    pub fn as_str(&self) -> (r: &'static str)
        ensures
            *self is Overview ==> r@ == "Overview"@,
            *self is Nodes ==> r@ == "Nodes"@,
            *self is Edges ==> r@ == "Edges"@,
            *self is Components ==> r@ == "Components"@,
    {
        match self {
            ViewMode::Overview => "Overview",
            ViewMode::Nodes => "Nodes",
            ViewMode::Edges => "Edges",
            ViewMode::Components => "Components",
        }
    }
}

/// The mode cycle is closed: four `next` steps return any mode to itself,
/// and `prev` is the exact inverse of `next`.
pub proof fn lemma_mode_cycle(m: ViewMode)
    ensures
        next_mode(next_mode(next_mode(next_mode(m)))) == m,
        prev_mode(next_mode(m)) == m,
        next_mode(prev_mode(m)) == m,
{
}

/// State of the connectivity viewer: active mode, scroll position within
/// that mode's list, and the selected node, if any.  The selection is only
/// meaningful in `Nodes` mode but deliberately survives mode switches.
pub struct ViewState {
    pub mode: ViewMode,
    /// Index into the list the active mode scrolls over (nodes, edges or
    /// components); clamped against that list's length at render time.
    pub scroll_offset: usize,
    /// The selected node id, set only from `Nodes` mode.
    pub selected_node: Option<usize>,
}

impl ViewState {
    /// A fresh session starts on the overview with nothing selected.
    pub fn new() -> (v: ViewState)
        ensures
            v.mode is Overview,
            v.scroll_offset == 0,
            v.selected_node is None,
    {
        ViewState { mode: ViewMode::Overview, scroll_offset: 0, selected_node: None }
    }

    /// Switch to the next view; the scroll offset resets because the new
    /// mode scrolls over a different list, while the selection is kept.
    pub fn switch_next(&mut self)
        ensures
            final(self).mode == next_mode(old(self).mode),
            final(self).scroll_offset == 0,
            final(self).selected_node == old(self).selected_node,
    {
        self.mode = self.mode.next();
        self.scroll_offset = 0;
    }

    /// Switch to the previous view; resets the scroll offset, keeps the
    /// selection.
    pub fn switch_prev(&mut self)
        ensures
            final(self).mode == prev_mode(old(self).mode),
            final(self).scroll_offset == 0,
            final(self).selected_node == old(self).selected_node,
    {
        self.mode = self.mode.prev();
        self.scroll_offset = 0;
    }

    /// Scroll `amount` items toward the start, saturating at zero.
    pub fn scroll_up(&mut self, amount: usize)
        ensures
            final(self).mode == old(self).mode,
            final(self).selected_node == old(self).selected_node,
            final(self).scroll_offset == if old(self).scroll_offset <= amount {
                0usize
            } else {
                (old(self).scroll_offset - amount) as usize
            },
    {
        self.scroll_offset = self.scroll_offset.saturating_sub(amount);
    }

    /// Scroll `amount` items toward the end, saturating at the largest
    /// representable offset; the render-time window clamps it against the
    /// active list's length.
    pub fn scroll_down(&mut self, amount: usize)
        ensures
            final(self).mode == old(self).mode,
            final(self).selected_node == old(self).selected_node,
            final(self).scroll_offset == if old(self).scroll_offset + amount <= usize::MAX {
                (old(self).scroll_offset + amount) as usize
            } else {
                usize::MAX
            },
    {
        self.scroll_offset = self.scroll_offset.saturating_add(amount);
    }

    /// Jump to the first item of the active list.
    pub fn jump_to_start(&mut self)
        ensures
            final(self).mode == old(self).mode,
            final(self).selected_node == old(self).selected_node,
            final(self).scroll_offset == 0,
    {
        self.scroll_offset = 0;
    }

    /// Jump past the end of the active list; the render-time window clamps
    /// the offset back onto the last item.
    pub fn jump_to_end(&mut self)
        ensures
            final(self).mode == old(self).mode,
            final(self).selected_node == old(self).selected_node,
            final(self).scroll_offset == usize::MAX,
    {
        self.scroll_offset = usize::MAX;
    }

    /// Record the highlighted node as selected.  Only possible in `Nodes`
    /// mode and only when the offset is a valid node index; otherwise the
    /// state is unchanged.
    pub fn select_node(&mut self, node_count: usize)
        ensures
            final(self).mode == old(self).mode,
            final(self).scroll_offset == old(self).scroll_offset,
            old(self).mode is Nodes && old(self).scroll_offset < node_count
                ==> final(self).selected_node == Some(old(self).scroll_offset),
            !(old(self).mode is Nodes && old(self).scroll_offset < node_count)
                ==> final(self).selected_node == old(self).selected_node,
    {
        if matches!(self.mode, ViewMode::Nodes) && self.scroll_offset < node_count {
            self.selected_node = Some(self.scroll_offset);
        }
    }

    /// Clear the node selection.
    pub fn clear_selection(&mut self)
        ensures
            final(self).mode == old(self).mode,
            final(self).scroll_offset == old(self).scroll_offset,
            final(self).selected_node is None,
    {
        self.selected_node = None;
    }
}

/// The half-open range `[start, end)` of the active mode's list shown by the
/// renderer: the start is pulled back so the last item stays reachable, and
/// at most `height` items are shown.
pub fn list_window(offset: usize, height: usize, total: usize) -> (r: (usize, usize))
    ensures
        r.0 == if total == 0 {
            0int
        } else if offset <= total - 1 {
            offset as int
        } else {
            total - 1
        },
        r.1 == if r.0 + height <= total {
            (r.0 + height) as int
        } else {
            total as int
        },
        r.0 <= r.1 <= total,
        r.1 - r.0 <= height,
        total > 0 && height > 0 ==> r.0 < r.1,
{
    let last = if total == 0 {
        0
    } else {
        total - 1
    };
    let start = if offset <= last {
        offset
    } else {
        last
    };
    let end = if height <= total - start {
        start + height
    } else {
        total
    };
    (start, end)
}

} // verus!
