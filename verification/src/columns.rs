//! The scrolling strip: columns of tiles side by side, seen through a viewport.
//!
//! Column order and positions live in virtual strip coordinates, counted in subpixels from the
//! left end of the strip. A tile is known by a number that stays the same for its whole life.

use vstd::prelude::*;

use crate::actions::ResizeDirection;
use crate::doubles::{proportion, proportional};
use crate::rows::{is_weight, mean_weight, valid_weight, WEIGHT_ONE};
use crate::strip::{
    find_from, index_from, single_column, weight_index_from, ColumnView, DragView, Strip,
};
use crate::units::saturate_i32;

verus! {

/// The width of a new column, in percent of the viewport.
pub const DEFAULT_COLUMN_PERCENT: u32 = 66;

/// The narrowest width that resizing leaves, in percent of the viewport.
pub const MIN_COLUMN_PERCENT: u32 = 33;

/// The widest width that resizing leaves, in percent of the viewport.
pub const MAX_COLUMN_PERCENT: u32 = 100;

/// The preset width between the narrowest and the default one, in percent of the viewport.
pub const HALF_COLUMN_PERCENT: u32 = 50;

/// The height below which a resize keeps no row, where there is room for two such rows.
pub const MIN_TILE_HEIGHT: i32 = 240;

/// The largest distance of the viewport from the left end of the strip, in subpixels.
pub const VIEWPORT_LIMIT: i128 = 0x100_0000_0000_0000_0000_0000_0000_0000;

/// What became of a request to move a tile up or down.
#[derive(Clone, Copy, Debug, PartialEq, Eq, Structural)]
pub enum TileMove {
    Moved,
    Edge,
    Unavailable,
}

/// The horizontal edge which remains fixed while pointer motion resizes a column from the
/// opposite edge.
#[derive(Clone, Copy, Debug, PartialEq, Eq, Structural)]
pub enum ColumnResizeAnchor {
    Left,
    Right,
}

impl ColumnResizeAnchor {
    /// The growth of the column, in subpixels, that a pointer motion to the right asks for.
    pub fn width_delta(self, pointer_delta_x: i128) -> (delta: i128)
        requires
            pointer_delta_x > i128::MIN,
        ensures
            self is Left ==> delta == pointer_delta_x,
            self is Right ==> delta == -pointer_delta_x,
    {
        match self {
            ColumnResizeAnchor::Left => pointer_delta_x,
            ColumnResizeAnchor::Right => -pointer_delta_x,
        }
    }
}

/// Where a dragged tile is dropped, relative to the tiles of the strip.
#[derive(Clone, Copy, Debug, PartialEq, Eq, Structural)]
pub enum ColumnDropTarget {
    Original,
    Before(u64),
    After(u64),
    Above(u64),
    Below(u64),
    First,
    Last,
    Discard,
}

/// The width of a column as a fraction of the viewport.
#[derive(Clone, Copy, Debug, PartialEq, Eq, Structural)]
pub struct ColumnWidth {
    pub num: u32,
    pub den: u32,
}

impl ColumnWidth {
    /// Whether this is a positive fraction.
    pub open spec fn valid(self) -> bool {
        self.num > 0 && self.den > 0
    }

    /// The width in pixels, of a viewport of `viewport_width` pixels: what doubles give, to the
    /// nearest pixel.
    pub open spec fn spec_pixels(self, viewport_width: int) -> int {
        let viewport = if viewport_width > 1 { viewport_width } else { 1 };
        let rounded = saturate_i32(proportional(self.num as int, self.den as int, viewport));
        if rounded > 1 { rounded } else { 1 }
    }

    /// Whether both widths are the same fraction.
    pub open spec fn same(self, other: ColumnWidth) -> bool {
        self.num * other.den == other.num * self.den
    }

    /// Whether this fraction is smaller than `percent` hundredths.
    pub open spec fn below(self, percent: int) -> bool {
        self.num * 100 < percent * self.den
    }

    /// Whether this fraction is larger than `percent` hundredths.
    pub open spec fn above(self, percent: int) -> bool {
        self.num * 100 > percent * self.den
    }

    /// The fraction of `percent` hundredths.
    pub open spec fn spec_percent(percent: u32) -> ColumnWidth {
        ColumnWidth { num: percent, den: 100 }
    }

    /// The width of a new column.
    pub open spec fn spec_default() -> ColumnWidth {
        ColumnWidth::spec_percent(DEFAULT_COLUMN_PERCENT)
    }

    /// The next wider or narrower preset, around to the other end after the last one.
    pub open spec fn next_preset(self, direction: ResizeDirection) -> ColumnWidth {
        ColumnWidth::spec_percent(
            match direction {
                ResizeDirection::Outwards => if self.below(MIN_COLUMN_PERCENT as int) {
                    MIN_COLUMN_PERCENT
                } else if self.below(HALF_COLUMN_PERCENT as int) {
                    HALF_COLUMN_PERCENT
                } else if self.below(DEFAULT_COLUMN_PERCENT as int) {
                    DEFAULT_COLUMN_PERCENT
                } else if self.below(MAX_COLUMN_PERCENT as int) {
                    MAX_COLUMN_PERCENT
                } else {
                    MIN_COLUMN_PERCENT
                },
                ResizeDirection::Inwards => if self.above(MAX_COLUMN_PERCENT as int) {
                    MAX_COLUMN_PERCENT
                } else if self.above(DEFAULT_COLUMN_PERCENT as int) {
                    DEFAULT_COLUMN_PERCENT
                } else if self.above(HALF_COLUMN_PERCENT as int) {
                    HALF_COLUMN_PERCENT
                } else if self.above(MIN_COLUMN_PERCENT as int) {
                    MIN_COLUMN_PERCENT
                } else {
                    MAX_COLUMN_PERCENT
                },
            },
        )
    }

    /// The fraction `pixels / viewport_width`, limited to the widths that a column may have.
    pub open spec fn spec_limited(pixels: int, viewport_width: int) -> ColumnWidth {
        if pixels * 100 < MIN_COLUMN_PERCENT * viewport_width {
            ColumnWidth::spec_percent(MIN_COLUMN_PERCENT)
        } else if pixels * 100 > MAX_COLUMN_PERCENT * viewport_width {
            ColumnWidth::spec_percent(MAX_COLUMN_PERCENT)
        } else {
            ColumnWidth { num: pixels as u32, den: viewport_width as u32 }
        }
    }

    /// The fraction `num / den`.
    pub fn new(num: u32, den: u32) -> (width: ColumnWidth)
        requires
            num > 0,
            den > 0,
        ensures
            width.num == num,
            width.den == den,
            width.valid(),
    {
        ColumnWidth { num, den }
    }

    /// The width in pixels, of a viewport of `viewport_width` pixels.
    pub fn pixels(self, viewport_width: i32) -> (pixels: i32)
        requires
            self.valid(),
        ensures
            pixels == self.spec_pixels(viewport_width as int),
            pixels >= 1,
    {
        let viewport: u128 = if viewport_width > 1 { viewport_width as u128 } else { 1 };
        let rounded: u128 = proportion(self.num as u128, self.den as u128, viewport);
        if rounded > i32::MAX as u128 {
            i32::MAX
        } else if rounded > 1 {
            rounded as i32
        } else {
            1
        }
    }

    /// Whether this fraction is smaller than `percent` hundredths.
    fn is_below(self, percent: u32) -> (yes: bool)
        requires
            percent <= 100,
        ensures
            yes == self.below(percent as int),
    {
        assert(percent * self.den <= 100 * 0xffff_ffff) by (nonlinear_arith)
            requires
                0 <= percent <= 100,
                0 <= self.den <= 0xffff_ffff,
        ;
        (self.num as u64) * 100 < (percent as u64) * (self.den as u64)
    }

    /// Whether this fraction is larger than `percent` hundredths.
    fn is_above(self, percent: u32) -> (yes: bool)
        requires
            percent <= 100,
        ensures
            yes == self.above(percent as int),
    {
        assert(percent * self.den <= 100 * 0xffff_ffff) by (nonlinear_arith)
            requires
                0 <= percent <= 100,
                0 <= self.den <= 0xffff_ffff,
        ;
        (self.num as u64) * 100 > (percent as u64) * (self.den as u64)
    }

    /// Whether both widths are the same fraction.
    pub fn is_same(self, other: ColumnWidth) -> (yes: bool)
        ensures
            yes == self.same(other),
    {
        assert(self.num * other.den <= 0xffff_ffff * 0xffff_ffff) by (nonlinear_arith)
            requires
                0 <= self.num <= 0xffff_ffff,
                0 <= other.den <= 0xffff_ffff,
        ;
        assert(other.num * self.den <= 0xffff_ffff * 0xffff_ffff) by (nonlinear_arith)
            requires
                0 <= other.num <= 0xffff_ffff,
                0 <= self.den <= 0xffff_ffff,
        ;
        (self.num as u64) * (other.den as u64) == (other.num as u64) * (self.den as u64)
    }

    /// The next wider or narrower preset, around to the other end after the last one.
    pub fn cycled(self, direction: ResizeDirection) -> (width: ColumnWidth)
        ensures
            width == self.next_preset(direction),
            width.valid(),
    {
        let percent: u32 = match direction {
            ResizeDirection::Outwards => if self.is_below(MIN_COLUMN_PERCENT) {
                MIN_COLUMN_PERCENT
            } else if self.is_below(HALF_COLUMN_PERCENT) {
                HALF_COLUMN_PERCENT
            } else if self.is_below(DEFAULT_COLUMN_PERCENT) {
                DEFAULT_COLUMN_PERCENT
            } else if self.is_below(MAX_COLUMN_PERCENT) {
                MAX_COLUMN_PERCENT
            } else {
                MIN_COLUMN_PERCENT
            },
            ResizeDirection::Inwards => if self.is_above(MAX_COLUMN_PERCENT) {
                MAX_COLUMN_PERCENT
            } else if self.is_above(DEFAULT_COLUMN_PERCENT) {
                DEFAULT_COLUMN_PERCENT
            } else if self.is_above(HALF_COLUMN_PERCENT) {
                HALF_COLUMN_PERCENT
            } else if self.is_above(MIN_COLUMN_PERCENT) {
                MIN_COLUMN_PERCENT
            } else {
                MAX_COLUMN_PERCENT
            },
        };
        ColumnWidth { num: percent, den: 100 }
    }

    /// The fraction `pixels / viewport_width`, limited to the widths that a column may have.
    pub fn limited(pixels: i32, viewport_width: i32) -> (width: ColumnWidth)
        requires
            pixels > 0,
            viewport_width > 0,
        ensures
            width == ColumnWidth::spec_limited(pixels as int, viewport_width as int),
            width.valid(),
    {
        let least: i64 = MIN_COLUMN_PERCENT as i64;
        let most: i64 = MAX_COLUMN_PERCENT as i64;
        assert(least == 33 && most == 100);
        if (pixels as i64) * 100 < least * viewport_width as i64 {
            ColumnWidth { num: MIN_COLUMN_PERCENT, den: 100 }
        } else if (pixels as i64) * 100 > most * viewport_width as i64 {
            ColumnWidth { num: MAX_COLUMN_PERCENT, den: 100 }
        } else {
            ColumnWidth { num: pixels as u32, den: viewport_width as u32 }
        }
    }
}

impl Default for ColumnWidth {
    fn default() -> (width: Self)
        ensures
            width == ColumnWidth::spec_default(),
    {
        ColumnWidth { num: DEFAULT_COLUMN_PERCENT, den: 100 }
    }
}

/// A column of tiles, top to bottom.
#[derive(Clone, Debug, PartialEq, Eq)]
pub struct Column {
    /// The tiles, in their stable vertical order.
    pub tiles: Vec<u64>,
    pub width: ColumnWidth,
}

impl View for Column {
    type V = ColumnView;

    open spec fn view(&self) -> ColumnView {
        ColumnView { tiles: self.tiles@, width: self.width }
    }
}

impl Column {
    /// A column of its own for `tile`.
    pub fn single(tile: u64) -> (column: Column)
        ensures
            column@ == single_column(tile),
    {
        Column::with_width(tile, ColumnWidth { num: DEFAULT_COLUMN_PERCENT, den: 100 })
    }

    /// A column of its own for `tile`, of the given width.
    pub fn with_width(tile: u64, width: ColumnWidth) -> (column: Column)
        ensures
            column@ == (ColumnView { tiles: seq![tile], width }),
    {
        let mut tiles: Vec<u64> = Vec::new();
        tiles.push(tile);
        assert(tiles@ =~= seq![tile]);
        Column { tiles, width }
    }
}

/// What is remembered of a tile while it is dragged.
#[derive(Clone, Debug)]
pub struct PendingDrag {
    pub source: u64,
    pub source_column: usize,
    pub source_tile: usize,
    pub source_width: ColumnWidth,
    pub source_tiles: Vec<u64>,
    pub source_weight: u128,
    pub focused: Option<u64>,
    pub viewport_x: i128,
    pub user_positioned_viewport: bool,
}

impl View for PendingDrag {
    type V = DragView;

    open spec fn view(&self) -> DragView {
        DragView {
            source: self.source,
            source_column: self.source_column as int,
            source_tile: self.source_tile as int,
            source_width: self.source_width,
            source_tiles: self.source_tiles@,
            source_weight: self.source_weight,
            focused: self.focused,
            viewport_x: self.viewport_x as int,
            user_positioned_viewport: self.user_positioned_viewport,
        }
    }
}

/// Persistent state of the scrolling strip.
///
/// After reconciliation, every tile occurs at most once, columns are non-empty, existing column
/// and tile order is stable, and unknown tiles have appended as single-tile columns. Width
/// belongs to the column, while focus belongs to a tile rather than to a position.
#[derive(Clone, Debug)]
pub struct ColumnModel {
    pub columns: Vec<Column>,
    /// The row weight of each tile.
    pub tile_weights: Vec<(u64, u128)>,
    pub focused: Option<u64>,
    pub pending_drag: Option<PendingDrag>,
    /// The left edge of the viewport on the strip, in subpixels.
    pub viewport_x: i128,
    /// A touchpad pan is authoritative until an explicit focus or layout action requests
    /// visibility again.
    pub user_positioned_viewport: bool,
    pub viewport_width: i32,
    pub gap: i32,
    pub column_height: i32,
}

/// Columns as the contracts speak of them.
pub open spec fn column_views(columns: Seq<Column>) -> Seq<ColumnView> {
    Seq::new(columns.len(), |i: int| columns[i]@)
}

impl View for ColumnModel {
    type V = Strip;

    open spec fn view(&self) -> Strip {
        Strip {
            columns: column_views(self.columns@),
            weights: self.tile_weights@,
            focused: self.focused,
            drag: match self.pending_drag {
                Some(drag) => Some(drag@),
                None => None,
            },
            viewport_x: self.viewport_x as int,
            user_positioned_viewport: self.user_positioned_viewport,
            viewport_width: self.viewport_width as int,
            gap: self.gap as int,
            column_height: self.column_height as int,
        }
    }
}

impl Default for ColumnModel {
    fn default() -> (model: Self)
        ensures
            model@ == Strip::empty(),
    {
        let model = ColumnModel {
            columns: Vec::new(),
            tile_weights: Vec::new(),
            focused: None,
            pending_drag: None,
            viewport_x: 0,
            user_positioned_viewport: false,
            viewport_width: 0,
            gap: 0,
            column_height: 0,
        };
        assert(model@.columns =~= seq![]);
        model
    }
}

/// A position as the contracts speak of it.
pub open spec fn position_view(position: Option<(usize, usize)>) -> Option<(int, int)> {
    match position {
        Some((column, row)) => Some((column as int, row as int)),
        None => None,
    }
}

/// What it means to be the first index of an item.
pub proof fn lemma_index_from(items: Seq<u64>, item: u64, start: int)
    requires
        0 <= start <= items.len(),
    ensures
        match index_from(items, item, start) {
            Some(i) => start <= i < items.len() && items[i] == item && forall|j: int|
                start <= j < i ==> items[j] != item,
            None => forall|j: int| start <= j < items.len() ==> items[j] != item,
        },
    decreases items.len() - start,
{
    if start < items.len() && items[start] != item {
        lemma_index_from(items, item, start + 1);
    }
}

/// What it means to be the first position of a tile.
pub proof fn lemma_find_from(columns: Seq<ColumnView>, tile: u64, start: int)
    requires
        0 <= start <= columns.len(),
    ensures
        match find_from(columns, tile, start) {
            Some((c, r)) => {
                &&& start <= c < columns.len()
                &&& 0 <= r < columns[c].tiles.len()
                &&& columns[c].tiles[r] == tile
                &&& forall|j: int| 0 <= j < r ==> columns[c].tiles[j] != tile
                &&& forall|i: int, j: int|
                    start <= i < c && 0 <= j < columns[i].tiles.len()
                        ==> #[trigger] columns[i].tiles[j] != tile
            },
            None => forall|i: int, j: int|
                start <= i < columns.len() && 0 <= j < columns[i].tiles.len()
                    ==> #[trigger] columns[i].tiles[j] != tile,
        },
    decreases columns.len() - start,
{
    if start < columns.len() {
        lemma_index_from(columns[start].tiles, tile, 0);
        if index_from(columns[start].tiles, tile, 0) is None {
            lemma_find_from(columns, tile, start + 1);
        }
    }
}

/// What it means to be the first index of a recorded weight.
pub proof fn lemma_weight_index_from(weights: Seq<(u64, u128)>, tile: u64, start: int)
    requires
        0 <= start <= weights.len(),
    ensures
        match weight_index_from(weights, tile, start) {
            Some(i) => start <= i < weights.len() && weights[i].0 == tile && forall|j: int|
                start <= j < i ==> (#[trigger] weights[j]).0 != tile,
            None => forall|j: int| start <= j < weights.len() ==> (#[trigger] weights[j]).0 != tile,
        },
    decreases weights.len() - start,
{
    if start < weights.len() && weights[start].0 != tile {
        lemma_weight_index_from(weights, tile, start + 1);
    }
}

/// The index of an item, from `start` on.
fn index_of(items: &Vec<u64>, item: u64) -> (index: Option<usize>)
    ensures
        match index {
            Some(i) => index_from(items@, item, 0) == Some(i as int) && i < items@.len(),
            None => index_from(items@, item, 0) is None,
        },
{
    let mut i: usize = 0;
    while i < items.len()
        invariant
            i <= items@.len(),
            index_from(items@, item, 0) == index_from(items@, item, i as int),
        decreases items@.len() - i,
    {
        if items[i] == item {
            return Some(i);
        }
        i += 1;
    }
    None
}

/// Whether `items` holds `item`.
pub(crate) fn contains_item(items: &Vec<u64>, item: u64) -> (yes: bool)
    ensures
        yes == items@.contains(item),
{
    proof {
        lemma_index_from(items@, item, 0);
    }
    index_of(items, item).is_some()
}

/// A copy of `items`.
pub(crate) fn copy_items(items: &Vec<u64>) -> (copy: Vec<u64>)
    ensures
        copy@ == items@,
{
    let mut copy: Vec<u64> = Vec::new();
    let mut i: usize = 0;
    while i < items.len()
        invariant
            i <= items@.len(),
            copy@ == items@.take(i as int),
        decreases items@.len() - i,
    {
        copy.push(items[i]);
        assert(copy@ =~= items@.take(i as int + 1));
        i += 1;
    }
    assert(items@.take(items@.len() as int) =~= items@);
    copy
}

impl ColumnModel {
    /// The number of columns fits into a machine word.
    pub proof fn lemma_column_count(&self)
        ensures
            self@.columns.len() <= u64::MAX,
    {
        assert(self.columns.len() == self.columns@.len());
    }

    /// The column and row of a tile.
    pub fn tile_position(&self, current: u64) -> (position: Option<(usize, usize)>)
        ensures
            position_view(position) == self@.position(current),
            position matches Some((c, r)) ==> c < self.columns@.len() && r
                < self.columns@[c as int].tiles@.len() && self.columns@[c as int].tiles@[r as int]
                == current,
    {
        let mut column: usize = 0;
        while column < self.columns.len()
            invariant
                column <= self.columns@.len(),
                self@.position(current) == find_from(self@.columns, current, column as int),
            decreases self.columns@.len() - column,
        {
            proof {
                lemma_index_from(self@.columns[column as int].tiles, current, 0);
            }
            match index_of(&self.columns[column].tiles, current) {
                Some(row) => {
                    return Some((column, row));
                },
                None => {},
            }
            column += 1;
        }
        None
    }

    /// Whether the strip holds a tile.
    pub fn contains(&self, current: u64) -> (yes: bool)
        ensures
            yes == self@.contains(current),
    {
        self.tile_position(current).is_some()
    }

    /// The index of the weight recorded for a tile.
    fn weight_index(&self, tile: u64) -> (index: Option<usize>)
        ensures
            match index {
                Some(i) => weight_index_from(self@.weights, tile, 0) == Some(i as int) && i
                    < self.tile_weights@.len() && self.tile_weights@[i as int].0 == tile,
                None => weight_index_from(self@.weights, tile, 0) is None,
            },
    {
        let mut i: usize = 0;
        while i < self.tile_weights.len()
            invariant
                i <= self.tile_weights@.len(),
                weight_index_from(self@.weights, tile, 0) == weight_index_from(
                    self@.weights,
                    tile,
                    i as int,
                ),
            decreases self.tile_weights@.len() - i,
        {
            if self.tile_weights[i].0 == tile {
                return Some(i);
            }
            i += 1;
        }
        None
    }

    /// The row weight of a tile.
    pub fn tile_weight(&self, tile: u64) -> (weight: u128)
        ensures
            weight == self@.weight_of(tile),
            is_weight(weight),
    {
        match self.weight_index(tile) {
            Some(index) => valid_weight(self.tile_weights[index].1),
            None => WEIGHT_ONE,
        }
    }

    /// The row weights of the tiles of a column.
    pub fn column_weights(&self, column: usize) -> (weights: Vec<u128>)
        requires
            column < self.columns@.len(),
        ensures
            weights@ == self@.column_weights(column as int),
    {
        let mut weights: Vec<u128> = Vec::new();
        let mut row: usize = 0;
        while row < self.columns[column].tiles.len()
            invariant
                column < self.columns@.len(),
                row <= self.columns@[column as int].tiles@.len(),
                weights@ == self@.column_weights(column as int).take(row as int),
            decreases self.columns@[column as int].tiles@.len() - row,
        {
            weights.push(self.tile_weight(self.columns[column].tiles[row]));
            assert(weights@ =~= self@.column_weights(column as int).take(row as int + 1));
            row += 1;
        }
        assert(weights@ =~= self@.column_weights(column as int));
        weights
    }

    /// The mean row weight in a column, one for a column without tiles.
    pub fn mean_column_weight(&self, column: usize) -> (weight: u128)
        ensures
            weight == self@.mean_weight(column as int),
    {
        if column >= self.columns.len() || self.columns[column].tiles.len() == 0 {
            return WEIGHT_ONE;
        }
        let weights: Vec<u128> = self.column_weights(column);
        mean_weight(weights.as_slice())
    }

    /// Records the row weight of a tile.
    pub fn set_tile_weight(&mut self, tile: u64, weight: u128)
        ensures
            final(self)@ == old(self)@.weighted(tile, weight),
            final(self).columns == old(self).columns,
    {
        let valid: u128 = valid_weight(weight);
        match self.weight_index(tile) {
            Some(index) => {
                self.tile_weights.set(index, (tile, valid));
            },
            None => {
                self.tile_weights.push((tile, valid));
            },
        }
        assert(self@ =~~= old(self)@.weighted(tile, weight));
    }
}

} // verus!
