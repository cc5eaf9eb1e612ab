//! The viewport on the scrolling strip: where columns lie, and how the viewport follows the
//! focus and the user.

use vstd::prelude::*;

use crate::columns::{lemma_find_from, ColumnModel, VIEWPORT_LIMIT};
use crate::strip::{tiles_of, Strip};
use crate::units::{Float64, HALF_PIXEL, SUBPIXEL};

verus! {

/// No position on a strip is further from its left end, in subpixels.
pub const STRIP_LIMIT: i128 = 0x10_0000_0000_0000_0000_0000_0000_0000;

/// Columns have positive widths, so edges grow along the strip, and stay in range.
pub proof fn lemma_edges(strip: Strip, column: int)
    requires
        0 <= strip.gap <= i32::MAX,
        0 <= column <= strip.columns.len(),
        strip.columns.len() <= u64::MAX,
    ensures
        0 <= strip.widths_before(column) <= column * i32::MAX,
        0 <= strip.left_edge(column) <= STRIP_LIMIT - SUBPIXEL * i32::MAX,
        column < strip.columns.len() ==> 1 <= strip.width_of(column) <= i32::MAX,
        column < strip.columns.len() ==> strip.left_edge(column) < strip.center(column)
            < strip.right_edge(column) <= STRIP_LIMIT,
        0 <= column * strip.gap <= u64::MAX * i32::MAX,
    decreases column,
{
    if column > 0 {
        lemma_edges(strip, column - 1);
        assert(column * i32::MAX == (column - 1) * i32::MAX + i32::MAX) by (nonlinear_arith);
    }
    assert(0 <= column * strip.gap <= column * i32::MAX) by (nonlinear_arith)
        requires
            0 <= column,
            0 <= strip.gap <= i32::MAX,
    ;
    if column < strip.columns.len() {
        assert(column * i32::MAX <= (u64::MAX - 1) * i32::MAX) by (nonlinear_arith)
            requires
                column <= u64::MAX - 1,
        ;
    } else {
        assert(column * i32::MAX <= u64::MAX * i32::MAX) by (nonlinear_arith)
            requires
                column <= u64::MAX,
        ;
    }
}

/// A column ends before the next one begins.
pub proof fn lemma_edges_ordered(strip: Strip, low: int, high: int)
    requires
        0 <= strip.gap,
        0 <= low < high <= strip.columns.len(),
    ensures
        strip.right_edge(low) <= strip.left_edge(high),
        strip.widths_before(low) + strip.width_of(low) <= strip.widths_before(high),
    decreases high - low,
{
    if low + 1 < high {
        lemma_edges_ordered(strip, low, high - 1);
    }
    assert(low * strip.gap <= high * strip.gap) by (nonlinear_arith)
        requires
            low <= high,
            0 <= strip.gap,
    ;
    assert(strip.width_of(high - 1) >= 1);
}

/// The width of the strip is where its last column ends.
pub proof fn lemma_strip_width(strip: Strip)
    requires
        0 <= strip.gap <= i32::MAX,
        strip.columns.len() <= u64::MAX,
    ensures
        strip.columns.len() > 0 ==> strip.width() == strip.right_edge(strip.columns.len() - 1),
        strip.columns.len() == 0 ==> strip.width() == 0,
        0 <= strip.width() <= STRIP_LIMIT,
{
    let count = strip.columns.len() as int;
    if count > 0 {
        lemma_edges(strip, count - 1);
        assert(strip.widths_before(count) == strip.widths_before(count - 1) + strip.width_of(
            count - 1,
        ));
        assert(SUBPIXEL * (strip.widths_before(count - 1) + strip.width_of(count - 1) + (count - 1)
            * strip.gap) == SUBPIXEL * (strip.widths_before(count - 1) + (count - 1) * strip.gap)
            + SUBPIXEL * strip.width_of(count - 1)) by (nonlinear_arith);
    } else {
        assert(0 * strip.gap == 0);
    }
}

/// The bounds of a pan are in order and in range.
pub proof fn lemma_pan_bounds(strip: Strip)
    requires
        0 <= strip.gap <= i32::MAX,
        strip.viewport_width <= i32::MAX,
        0 < strip.columns.len() <= u64::MAX,
    ensures
        strip.center(0) <= strip.center(strip.columns.len() - 1),
        -VIEWPORT_LIMIT < strip.center(0) - HALF_PIXEL * strip.visible_width(),
        strip.center(strip.columns.len() - 1) - HALF_PIXEL * strip.visible_width()
            < VIEWPORT_LIMIT,
{
    let last = strip.columns.len() - 1;
    lemma_edges(strip, 0);
    lemma_edges(strip, last);
    if last > 0 {
        lemma_edges_ordered(strip, 0, last);
    }
}

/// Bringing the viewport back keeps everything else, and leaves it in range.
pub proof fn lemma_clamped_wf(strip: Strip)
    requires
        (Strip { viewport_x: 0, ..strip }).wf(),
        strip.gap <= i32::MAX,
        strip.viewport_width <= i32::MAX,
        strip.columns.len() <= u64::MAX,
    ensures
        strip.clamped().wf(),
        strip.clamped() == (Strip { viewport_x: strip.clamped().viewport_x, ..strip }),
{
    lemma_strip_width(strip);
    if strip.columns.len() > 0 {
        lemma_pan_bounds(strip);
    }
}

/// Revealing a tile keeps the columns and leaves the viewport in range.
pub proof fn lemma_revealed_wf(strip: Strip, tile: u64)
    requires
        strip.wf(),
        strip.gap <= i32::MAX,
        strip.viewport_width <= i32::MAX,
        strip.columns.len() <= u64::MAX,
    ensures
        strip.revealed(tile).wf(),
        strip.revealed(tile).columns == strip.columns,
        strip.revealed(tile).weights == strip.weights,
        strip.revealed(tile).drag == strip.drag,
{
    lemma_find_from(strip.columns, tile, 0);
    match strip.position(tile) {
        None => {},
        Some((column, _)) => {
            let focused = Strip { focused: Some(tile), user_positioned_viewport: false, ..strip };
            lemma_edges(strip, column);
            let left = strip.left_edge(column);
            let right = strip.right_edge(column) - SUBPIXEL * strip.viewport_width;
            lemma_clamped_wf(Strip { viewport_x: left, ..focused });
            lemma_clamped_wf(Strip { viewport_x: right, ..focused });
        },
    }
}

/// The tiles of a column follow the tiles of the columns before it.
pub proof fn lemma_tiles_of_len(strip: Strip, count: int)
    requires
        0 <= count <= strip.columns.len(),
    ensures
        tiles_of(strip.columns, count).len() <= strip.tiles().len(),
        tiles_of(strip.columns, count) =~= strip.tiles().take(
            tiles_of(strip.columns, count).len() as int,
        ),
    decreases strip.columns.len() - count,
{
    if count < strip.columns.len() {
        lemma_tiles_of_len(strip, count + 1);
        let longer = tiles_of(strip.columns, count + 1);
        let shorter = tiles_of(strip.columns, count);
        assert(longer == shorter + strip.columns[count].tiles);
        assert(shorter =~= longer.take(shorter.len() as int));
    }
}

impl ColumnModel {
    /// The width of a column in pixels.
    pub fn column_width(&self, index: usize) -> (width: i32)
        requires
            self@.wf(),
            index < self.columns@.len(),
        ensures
            width == self@.width_of(index as int),
            width >= 1,
    {
        assert(self@.columns[index as int].width.valid());
        self.columns[index].width.pixels(self.viewport_width)
    }

    /// The sum of the widths of the first `count` columns in pixels.
    fn column_widths_before(&self, count: usize) -> (sum: i128)
        requires
            self@.wf(),
            count <= self.columns@.len(),
        ensures
            sum == self@.widths_before(count as int),
            0 <= sum <= count * i32::MAX,
    {
        let mut sum: i128 = 0;
        let mut i: usize = 0;
        while i < count
            invariant
                self@.wf(),
                i <= count <= self.columns@.len(),
                sum == self@.widths_before(i as int),
                0 <= sum <= i * i32::MAX,
            decreases count - i,
        {
            assert(i * i32::MAX + i32::MAX == (i + 1) * i32::MAX) by (nonlinear_arith);
            assert((i + 1) * i32::MAX <= u64::MAX * i32::MAX) by (nonlinear_arith)
                requires
                    i + 1 <= u64::MAX,
            ;
            sum = sum + self.column_width(i) as i128;
            i += 1;
        }
        sum
    }

    /// The left edge of a column on the strip, in subpixels.
    pub fn layout_x(&self, index: usize) -> (x: i128)
        requires
            self@.wf(),
            index <= self.columns@.len(),
        ensures
            x == self@.left_edge(index as int),
            0 <= x <= STRIP_LIMIT - SUBPIXEL * i32::MAX,
    {
        let widths: i128 = self.column_widths_before(index);
        proof {
            self.lemma_column_count();
            lemma_edges(self@, index as int);
        }
        SUBPIXEL * (widths + index as i128 * self.gap as i128)
    }

    /// The width of the strip with its inner gaps, in subpixels.
    pub fn strip_width(&self) -> (width: i128)
        requires
            self@.wf(),
        ensures
            width == self@.width(),
            0 <= width <= STRIP_LIMIT,
    {
        let count: usize = self.columns.len();
        proof {
            self.lemma_column_count();
            lemma_strip_width(self@);
            lemma_edges(self@, count as int);
            lemma_edges(self@, if count > 0 { count - 1 } else { 0 });
        }
        if count == 0 {
            assert(0 * self.gap == 0);
            return 0;
        }
        let widths: i128 = self.column_widths_before(count);
        SUBPIXEL * (widths + (count - 1) as i128 * self.gap as i128)
    }

    /// The viewport position nearest to `viewport_x` that a pan may end at: the first and last
    /// columns may each be centered.
    pub fn user_positioned_viewport_target(&self, viewport_x: i128) -> (target: i128)
        requires
            self@.wf(),
            self.columns@.len() > 0,
        ensures
            target == self@.pan_target(viewport_x as int),
    {
        let visible: i128 = if self.viewport_width > 0 { self.viewport_width as i128 } else { 0 };
        let last: usize = self.columns.len() - 1;
        proof {
            lemma_edges(self@, 0);
            lemma_edges(self@, last as int);
            assert(self@.left_edge(0) == 0) by {
                assert(0 * self.gap == 0);
            }
        }
        let low: i128 = HALF_PIXEL * self.column_width(0) as i128 - HALF_PIXEL * visible;
        let high: i128 = self.layout_x(last) + HALF_PIXEL * self.column_width(last) as i128
            - HALF_PIXEL * visible;
        if viewport_x < low {
            low
        } else if viewport_x > high {
            high
        } else {
            viewport_x
        }
    }

    /// Brings the viewport back to where it may stand.
    pub fn clamp_viewport(&mut self)
        requires
            old(self)@.wf(),
        ensures
            final(self)@ == old(self)@.clamped(),
            final(self)@.wf(),
            final(self).columns == old(self).columns,
    {
        proof {
            self.lemma_column_count();
            lemma_clamped_wf(self@);
        }
        if self.user_positioned_viewport && self.columns.len() > 0 {
            self.viewport_x = self.user_positioned_viewport_target(self.viewport_x);
        } else {
            let visible: i128 = if self.viewport_width > 0 {
                self.viewport_width as i128
            } else {
                0
            };
            let room: i128 = self.strip_width() - SUBPIXEL * visible;
            let most: i128 = if room > 0 { room } else { 0 };
            if self.viewport_x < 0 {
                self.viewport_x = 0;
            } else if self.viewport_x > most {
                self.viewport_x = most;
            }
        }
        assert(self@ =~~= old(self)@.clamped());
    }

    /// Sets the width of the viewport and the gap between columns, and shows the focused tile
    /// unless the user positioned the viewport.
    pub fn set_metrics(&mut self, viewport_width: i32, gap: i32)
        requires
            old(self)@.wf(),
        ensures
            final(self)@ == old(self)@.measured(viewport_width as int, gap as int),
            final(self)@.wf(),
    {
        self.viewport_width = if viewport_width > 1 { viewport_width } else { 1 };
        self.gap = if gap > 0 { gap } else { 0 };
        let ghost sized = Strip {
            viewport_width: self.viewport_width as int,
            gap: self.gap as int,
            ..old(self)@
        };
        assert(self@ =~~= sized);
        self.clamp_viewport();
        if !self.user_positioned_viewport {
            match self.focused {
                Some(focused) => {
                    self.ensure_visible(focused);
                },
                None => {},
            }
        }
    }

    /// Sets the height that the rows of a column share.
    pub fn set_column_height(&mut self, column_height: i32)
        ensures
            final(self)@ == (Strip {
                column_height: if column_height > 0 {
                    column_height as int
                } else {
                    0
                },
                ..old(self)@
            }),
    {
        self.column_height = if column_height > 0 { column_height } else { 0 };
        assert(self@ =~~= (Strip { column_height: self.column_height as int, ..old(self)@ }));
    }

    /// Focuses a tile and moves the viewport just enough to show its column. Returns whether
    /// the viewport moved.
    pub fn ensure_visible(&mut self, current: u64) -> (moved: bool)
        requires
            old(self)@.wf(),
        ensures
            final(self)@ == old(self)@.revealed(current),
            moved == (final(self)@.viewport_x != old(self)@.viewport_x),
            final(self)@.wf(),
    {
        proof {
            self.lemma_column_count();
            lemma_revealed_wf(self@, current);
        }
        let column: usize = match self.tile_position(current) {
            Some((column, _)) => column,
            None => {
                return false;
            },
        };
        let old_viewport: i128 = self.viewport_x;
        proof {
            lemma_edges(self@, column as int);
        }
        let left: i128 = self.layout_x(column);
        let right: i128 = left + SUBPIXEL * self.column_width(column) as i128;
        self.focused = Some(current);
        self.user_positioned_viewport = false;
        let ghost focused = Strip {
            focused: Some(current),
            user_positioned_viewport: false,
            ..old(self)@
        };
        assert(self@ =~~= focused);
        if self.viewport_width <= 0 {
            return false;
        }
        let visible: i128 = SUBPIXEL * self.viewport_width as i128;
        if left < self.viewport_x {
            self.viewport_x = left;
            assert(self@ =~~= (Strip { viewport_x: left as int, ..focused }));
            self.clamp_viewport();
        } else if right > self.viewport_x + visible {
            self.viewport_x = right - visible;
            assert(self@ =~~= (Strip { viewport_x: right - visible, ..focused }));
            self.clamp_viewport();
        }
        self.viewport_x != old_viewport
    }

    /// The viewport position at which the column of a tile is centered.
    pub fn centered_viewport(&self, current: u64) -> (target: Option<i128>)
        requires
            self@.wf(),
        ensures
            match target {
                Some(x) => self@.centering(current) == Some(x as int) && -VIEWPORT_LIMIT < x
                    < VIEWPORT_LIMIT,
                None => self@.centering(current) is None,
            },
    {
        match self.tile_position(current) {
            Some((column, _)) => if self.viewport_width > 0 {
                proof {
                    self.lemma_column_count();
                    lemma_edges(self@, column as int);
                }
                Some(
                    self.layout_x(column) + HALF_PIXEL * self.column_width(column) as i128
                        - HALF_PIXEL * self.viewport_width as i128,
                )
            } else {
                None
            },
            None => None,
        }
    }

    /// Centers the complete column of a tile, even at the ends of the strip. Returns whether
    /// the viewport moved.
    pub fn center_column(&mut self, current: u64) -> (moved: bool)
        requires
            old(self)@.wf(),
        ensures
            final(self)@ == old(self)@.centered(current),
            moved == (final(self)@.viewport_x != old(self)@.viewport_x),
            final(self)@.wf(),
    {
        match self.centered_viewport(current) {
            Some(target) => {
                let moved: bool = target != self.viewport_x;
                self.user_positioned_viewport = false;
                self.viewport_x = target;
                self.focused = Some(current);
                    assert(self@ =~~= old(self)@.centered(current));
                moved
            },
            None => false,
        }
    }

    /// Whether centering the column of a tile would move the viewport.
    pub fn centering_changes_viewport(&self, current: u64) -> (yes: bool)
        requires
            self@.wf(),
        ensures
            yes == (self@.centered(current).viewport_x != self@.viewport_x),
    {
        match self.centered_viewport(current) {
            Some(target) => target != self.viewport_x,
            None => false,
        }
    }

    /// The only tile of the strip, if there is exactly one.
    fn only_tile(&self) -> (tile: Option<u64>)
        ensures
            match tile {
                Some(only) => self@.tiles().len() == 1 && self@.tiles()[0] == only,
                None => self@.tiles().len() != 1,
            },
    {
        let mut found: Option<u64> = None;
        let mut column: usize = 0;
        while column < self.columns.len()
            invariant
                column <= self.columns@.len(),
                match found {
                    Some(only) => tiles_of(self@.columns, column as int) =~= seq![only],
                    None => tiles_of(self@.columns, column as int) =~= seq![],
                },
            decreases self.columns@.len() - column,
        {
            let tiles: &Vec<u64> = &self.columns[column].tiles;
            proof {
                lemma_tiles_of_len(self@, column as int + 1);
                assert(tiles_of(self@.columns, column as int + 1) == tiles_of(
                    self@.columns,
                    column as int,
                ) + self@.columns[column as int].tiles);
            }
            if tiles.len() > 0 {
                if found.is_some() || tiles.len() > 1 {
                    return None;
                }
                found = Some(tiles[0]);
            }
            column += 1;
        }
        found
    }

    /// Keeps a strip with exactly one tile centered. Returns whether the viewport moved.
    pub fn center_only_tile(&mut self) -> (moved: bool)
        requires
            old(self)@.wf(),
        ensures
            final(self)@ == old(self)@.only_tile_centered(),
            moved == (final(self)@.viewport_x != old(self)@.viewport_x),
            final(self)@.wf(),
    {
        match self.only_tile() {
            Some(tile) => self.center_column(tile),
            None => false,
        }
    }

    /// Shows the requested tile, or else the activated one unless the user positioned the
    /// viewport. Returns whether the viewport moved.
    pub fn ensure_preferred_visible(&mut self, requested: Option<u64>, activated: Option<u64>) -> (moved:
        bool)
        requires
            old(self)@.wf(),
        ensures
            final(self)@ == old(self)@.preferred_revealed(requested, activated),
            moved == (final(self)@.viewport_x != old(self)@.viewport_x),
            final(self)@.wf(),
    {
        match requested {
            Some(current) => self.ensure_visible(current),
            None => match activated {
                None => false,
                Some(current) => if self.user_positioned_viewport {
                    if self.contains(current) {
                        self.focused = Some(current);
                            assert(self@ =~~= (Strip { focused: Some(current), ..old(self)@ }));
                    }
                    false
                } else {
                    self.ensure_visible(current)
                },
            },
        }
    }

    /// Pans the strip directly, without changing the focus. The first and last columns may each
    /// be centered; a lone tile stays centered. Returns whether the viewport moved.
    pub fn pan_viewport(&mut self, delta_x: Float64) -> (moved: bool)
        requires
            old(self)@.wf(),
        ensures
            final(self)@ == if delta_x.finite() {
                old(self)@.panned(delta_x.spec_subpixels())
            } else {
                old(self)@
            },
            moved == (final(self)@.viewport_x != old(self)@.viewport_x),
            final(self)@.wf(),
    {
        if !delta_x.is_finite() || self.viewport_width <= 0 || self.columns.len() == 0 {
            return false;
        }
        let old_viewport: i128 = self.viewport_x;
        if let Some(tile) = self.only_tile() {
            return match self.centered_viewport(tile) {
                Some(target) => {
                    self.user_positioned_viewport = false;
                    self.viewport_x = target;
                        assert(self@ =~~= old(self)@.panned(delta_x.spec_subpixels()));
                    target != old_viewport
                },
                None => false,
            };
        }
        let target: i128 = self.user_positioned_viewport_target(
            self.viewport_x + delta_x.subpixels(),
        );
        proof {
            lemma_pan_bounds(self@);
        }
        self.user_positioned_viewport = true;
        self.viewport_x = target;
            assert(self@ =~~= old(self)@.panned(delta_x.spec_subpixels()));
        self.viewport_x != old_viewport
    }

    /// Whether a pan would move the viewport. Callers use this to keep a pan without effect
    /// from interrupting an animation that is still queued.
    pub fn pan_viewport_would_change(&self, delta_x: Float64) -> (yes: bool)
        requires
            self@.wf(),
        ensures
            yes == (delta_x.finite() && self@.panned(delta_x.spec_subpixels()).viewport_x
                != self@.viewport_x),
    {
        if !delta_x.is_finite() || self.viewport_width <= 0 || self.columns.len() == 0 {
            return false;
        }
        match self.only_tile() {
            Some(tile) => self.centering_changes_viewport(tile),
            None => {
                let target: i128 = self.user_positioned_viewport_target(
                    self.viewport_x + delta_x.subpixels(),
                );
                target != self.viewport_x
            },
        }
    }
}

} // verus!
