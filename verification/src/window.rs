//! Windowing engine: scroll offsets over the logical axes of a columnar
//! batch (feature columns, sample rows, vertical position) together with a
//! transpose flag.  All arithmetic saturates and clamps, so no offset ever
//! points past the data handed to the renderer.

use vstd::prelude::*;

verus! {

/// The largest admissible offset along an axis of `total` items seen
/// through a viewport of `span` items: `max(0, total - span)`.
pub open spec fn offset_limit(total: nat, span: nat) -> nat {
    if total <= span {
        0
    } else {
        (total - span) as nat
    }
}

/// `offset` clamped into `[0, offset_limit(total, span)]`.
pub open spec fn clamped(offset: nat, total: nat, span: nat) -> nat {
    if offset <= offset_limit(total, span) {
        offset
    } else {
        offset_limit(total, span)
    }
}

/// Start of the half-open index range `[start, end)` in view.
pub open spec fn window_start(offset: nat, total: nat) -> nat {
    if offset <= total {
        offset
    } else {
        total
    }
}

/// End of the half-open index range `[start, end)` in view.
pub open spec fn window_end(offset: nat, total: nat, span: nat) -> nat {
    if window_start(offset, total) + span <= total {
        (window_start(offset, total) + span) as nat
    } else {
        total
    }
}

/// A scroll offset clamped to its limit stays within `[0, max(0, total - span)]`,
/// the limit never exceeds `total`, and a visible window never holds more than
/// `span` items.
pub proof fn lemma_window_bounds(offset: nat, total: nat, span: nat)
    ensures
        clamped(offset, total, span) <= offset_limit(total, span),
        offset_limit(total, span) <= total,
        window_start(offset, total) <= window_end(offset, total, span) <= total,
        window_end(offset, total, span) - window_start(offset, total) <= span,
{
}

/// An empty axis always yields the empty window `[0, 0)`.
pub proof fn lemma_window_empty(offset: nat, span: nat)
    ensures
        window_start(offset, 0) == 0,
        window_end(offset, 0, span) == 0,
{
}

/// Which way a scroll command moves along its axis.
pub enum ScrollDirection {
    Left,
    Right,
    Up,
    Down,
}

impl ScrollDirection {
    /// Left and Right move the horizontal offset of the active orientation;
    /// Up and Down move the vertical offset.
    pub open spec fn is_horizontal(self) -> bool {
        match self {
            ScrollDirection::Left | ScrollDirection::Right => true,
            ScrollDirection::Up | ScrollDirection::Down => false,
        }
    }

    /// Right and Down move toward larger offsets.
    pub open spec fn is_forward(self) -> bool {
        match self {
            ScrollDirection::Right | ScrollDirection::Down => true,
            ScrollDirection::Left | ScrollDirection::Up => false,
        }
    }
}

/// Where a scroll command leaves an offset: moved by `amount` in the given
/// direction, then clamped to `[0, max(0, total - span)]`.
pub open spec fn scrolled(offset: nat, amount: nat, forward: bool, total: nat, span: nat) -> nat {
    let moved: nat = if forward {
        offset + amount
    } else if offset <= amount {
        0
    } else {
        (offset - amount) as nat
    };
    clamped(moved, total, span)
}

/// Scroll state of the spreadsheet viewer: one offset per logical axis and
/// the transpose flag that swaps which axis plays features against samples.
pub struct WindowState {
    /// Horizontal offset over feature columns (active when not transposed).
    pub col_offset: usize,
    /// Horizontal offset over sample rows (active when transposed).
    pub row_offset: usize,
    /// Vertical offset (top visible item).
    pub vertical_offset: usize,
    /// False shows samples x features; true shows features x samples.
    pub transposed: bool,
    /// Viewport capacity along a scrolling axis.
    pub visible_span: usize,
}

/// The state `toggle_transpose` produces: orientation flipped and every
/// offset reset to zero, since the axes change meaning.
pub open spec fn toggled(w: WindowState) -> WindowState {
    WindowState {
        col_offset: 0,
        row_offset: 0,
        vertical_offset: 0,
        transposed: !w.transposed,
        visible_span: w.visible_span,
    }
}

impl WindowState {
    pub open spec fn all_offsets_zero(self) -> bool {
        self.col_offset == 0 && self.row_offset == 0 && self.vertical_offset == 0
    }

    /// The offset of the currently active horizontal axis.
    pub open spec fn spec_horizontal_offset(self) -> usize {
        if self.transposed {
            self.row_offset
        } else {
            self.col_offset
        }
    }

    /// A fresh session: all offsets zero, samples-by-features orientation.
    pub fn new(visible_span: usize) -> (w: WindowState)
        ensures
            w.all_offsets_zero(),
            !w.transposed,
            w.visible_span == visible_span,
    {
        WindowState { col_offset: 0, row_offset: 0, vertical_offset: 0, transposed: false, visible_span }
    }

    /// Move the offset of the axis named by `dir` by `amount`, then clamp it
    /// to `[0, max(0, total - visible_span)]`; the other offsets, the
    /// orientation and the span are untouched.  Never errors: the arithmetic
    /// saturates at both ends.
    pub fn scroll(&mut self, dir: ScrollDirection, amount: usize, total: usize)
        ensures
            final(self).transposed == old(self).transposed,
            final(self).visible_span == old(self).visible_span,
            dir.is_horizontal() && !old(self).transposed ==> {
                &&& final(self).col_offset == scrolled(
                    old(self).col_offset as nat,
                    amount as nat,
                    dir.is_forward(),
                    total as nat,
                    old(self).visible_span as nat,
                )
                &&& final(self).row_offset == old(self).row_offset
                &&& final(self).vertical_offset == old(self).vertical_offset
            },
            dir.is_horizontal() && old(self).transposed ==> {
                &&& final(self).row_offset == scrolled(
                    old(self).row_offset as nat,
                    amount as nat,
                    dir.is_forward(),
                    total as nat,
                    old(self).visible_span as nat,
                )
                &&& final(self).col_offset == old(self).col_offset
                &&& final(self).vertical_offset == old(self).vertical_offset
            },
            !dir.is_horizontal() ==> {
                &&& final(self).vertical_offset == scrolled(
                    old(self).vertical_offset as nat,
                    amount as nat,
                    dir.is_forward(),
                    total as nat,
                    old(self).visible_span as nat,
                )
                &&& final(self).col_offset == old(self).col_offset
                &&& final(self).row_offset == old(self).row_offset
            },
    {
        let limit = if total <= self.visible_span {
            0
        } else {
            total - self.visible_span
        };
        let (horizontal, forward) = match dir {
            ScrollDirection::Left => (true, false),
            ScrollDirection::Right => (true, true),
            ScrollDirection::Up => (false, false),
            ScrollDirection::Down => (false, true),
        };
        let current = if !horizontal {
            self.vertical_offset
        } else if self.transposed {
            self.row_offset
        } else {
            self.col_offset
        };
        let moved = if forward {
            current.saturating_add(amount)
        } else {
            current.saturating_sub(amount)
        };
        let next = if moved <= limit {
            moved
        } else {
            limit
        };
        if !horizontal {
            self.vertical_offset = next;
        } else if self.transposed {
            self.row_offset = next;
        } else {
            self.col_offset = next;
        }
    }

    /// Jump the active horizontal offset back to the first item.
    pub fn jump_to_start(&mut self)
        ensures
            final(self).transposed == old(self).transposed,
            final(self).visible_span == old(self).visible_span,
            final(self).vertical_offset == old(self).vertical_offset,
            final(self).spec_horizontal_offset() == 0,
            old(self).transposed ==> final(self).col_offset == old(self).col_offset,
            !old(self).transposed ==> final(self).row_offset == old(self).row_offset,
    {
        if self.transposed {
            self.row_offset = 0;
        } else {
            self.col_offset = 0;
        }
    }

    /// Jump the active horizontal offset to the last full viewport,
    /// `max(0, total - visible_span)`.
    pub fn jump_to_end(&mut self, total: usize)
        ensures
            final(self).transposed == old(self).transposed,
            final(self).visible_span == old(self).visible_span,
            final(self).vertical_offset == old(self).vertical_offset,
            final(self).spec_horizontal_offset() == offset_limit(
                total as nat,
                old(self).visible_span as nat,
            ),
            old(self).transposed ==> final(self).col_offset == old(self).col_offset,
            !old(self).transposed ==> final(self).row_offset == old(self).row_offset,
    {
        let limit = if total <= self.visible_span {
            0
        } else {
            total - self.visible_span
        };
        if self.transposed {
            self.row_offset = limit;
        } else {
            self.col_offset = limit;
        }
    }

    /// Flip the orientation and reset every offset to zero.  The two axes
    /// change semantic meaning on toggle, so a stale offset from one axis
    /// would be meaningless in the other: a full reset is required, not a
    /// swap.
    pub fn toggle_transpose(&mut self)
        ensures
            *final(self) == toggled(*old(self)),
            final(self).all_offsets_zero(),
    {
        self.transposed = !self.transposed;
        self.col_offset = 0;
        self.row_offset = 0;
        self.vertical_offset = 0;
    }

    /// Change the viewport capacity and re-clamp each offset against its
    /// axis's total under the new span.  Unlike a transpose toggle this
    /// keeps the offsets (merely clamped), since the axes keep their
    /// meaning.
    pub fn resize(
        &mut self,
        new_span: usize,
        feature_total: usize,
        sample_total: usize,
        vertical_total: usize,
    )
        ensures
            final(self).transposed == old(self).transposed,
            final(self).visible_span == new_span,
            final(self).col_offset == clamped(
                old(self).col_offset as nat,
                feature_total as nat,
                new_span as nat,
            ),
            final(self).row_offset == clamped(
                old(self).row_offset as nat,
                sample_total as nat,
                new_span as nat,
            ),
            final(self).vertical_offset == clamped(
                old(self).vertical_offset as nat,
                vertical_total as nat,
                new_span as nat,
            ),
    {
        self.visible_span = new_span;
        self.col_offset = clamp_offset(self.col_offset, feature_total, new_span);
        self.row_offset = clamp_offset(self.row_offset, sample_total, new_span);
        self.vertical_offset = clamp_offset(self.vertical_offset, vertical_total, new_span);
    }

    /// The half-open range of the active horizontal axis currently in view.
    pub fn horizontal_window(&self, total: usize) -> (r: (usize, usize))
        ensures
            r.0 == window_start(self.spec_horizontal_offset() as nat, total as nat),
            r.1 == window_end(
                self.spec_horizontal_offset() as nat,
                total as nat,
                self.visible_span as nat,
            ),
    {
        let offset = if self.transposed {
            self.row_offset
        } else {
            self.col_offset
        };
        visible_window(offset, self.visible_span, total)
    }

    /// The half-open vertical range currently in view.
    pub fn vertical_window(&self, total: usize) -> (r: (usize, usize))
        ensures
            r.0 == window_start(self.vertical_offset as nat, total as nat),
            r.1 == window_end(self.vertical_offset as nat, total as nat, self.visible_span as nat),
    {
        visible_window(self.vertical_offset, self.visible_span, total)
    }
}

/// Toggling the transpose twice resets every offset to zero both times and
/// returns the orientation and span to their starting values: the reset is
/// idempotent, not a value round-trip.
pub proof fn lemma_toggle_twice(w: WindowState)
    ensures
        toggled(w).all_offsets_zero(),
        toggled(toggled(w)).all_offsets_zero(),
        toggled(toggled(w)).transposed == w.transposed,
        toggled(toggled(w)).visible_span == w.visible_span,
{
}

/// `offset` clamped into `[0, max(0, total - span)]`.
pub fn clamp_offset(offset: usize, total: usize, span: usize) -> (r: usize)
    ensures
        r == clamped(offset as nat, total as nat, span as nat),
        r <= offset_limit(total as nat, span as nat),
{
    let limit = if total <= span {
        0
    } else {
        total - span
    };
    if offset <= limit {
        offset
    } else {
        limit
    }
}

/// The half-open index range `[start, end)` of an axis of `total` items seen
/// at `offset` through a viewport of `span` items.  The renderer slices the
/// source with it instead of copying the whole dataset; an empty axis yields
/// `(0, 0)` with no error.
pub fn visible_window(offset: usize, span: usize, total: usize) -> (r: (usize, usize))
    ensures
        r.0 == window_start(offset as nat, total as nat),
        r.1 == window_end(offset as nat, total as nat, span as nat),
        r.0 <= r.1 <= total,
        r.1 - r.0 <= span,
{
    let start = if offset <= total {
        offset
    } else {
        total
    };
    let end = if span <= total - start {
        start + span
    } else {
        total
    };
    (start, end)
}

/// The visible slice of the feature-column index list: the window of
/// `all_cols` that starts at `col_offset` and holds at most `visible_cols`
/// items.
pub fn feature_window(all_cols: &Vec<usize>, col_offset: usize, visible_cols: usize) -> (r: Vec<
    usize,
>)
    ensures
        r@ == all_cols@.subrange(
            window_start(col_offset as nat, all_cols@.len()) as int,
            window_end(col_offset as nat, all_cols@.len(), visible_cols as nat) as int,
        ),
{
    let (start, end) = visible_window(col_offset, visible_cols, all_cols.len());
    let mut out: Vec<usize> = Vec::new();
    let mut i = start;
    while i < end
        invariant
            start <= i <= end <= all_cols@.len(),
            out@ == all_cols@.subrange(start as int, i as int),
        decreases end - i,
    {
        out.push(all_cols[i]);
        proof {
            assert(out@ =~= all_cols@.subrange(start as int, i + 1 as int));
        }
        i = i + 1;
    }
    proof {
        assert(out@ =~= all_cols@.subrange(start as int, end as int));
    }
    out
}

/// The visible row indices in transposed mode: the integers of
/// `[start, end)` for the current row window.
pub fn row_window(total_rows: usize, row_offset: usize, visible: usize) -> (r: Vec<usize>)
    ensures
        r@.len() == window_end(row_offset as nat, total_rows as nat, visible as nat)
            - window_start(row_offset as nat, total_rows as nat),
        forall|i: int|
            0 <= i < r@.len() ==> r@[i] == window_start(row_offset as nat, total_rows as nat) + i,
{
    let (start, end) = visible_window(row_offset, visible, total_rows);
    let mut out: Vec<usize> = Vec::new();
    let mut i = start;
    while i < end
        invariant
            start <= i <= end,
            out@.len() == i - start,
            forall|j: int| 0 <= j < out@.len() ==> out@[j] == start + j,
        decreases end - i,
    {
        out.push(i);
        i = i + 1;
    }
    out
}

} // verus!
