//! What the nodes of a tiling tree hold: groups that split their area between their children,
//! windows, and placeholders.

use vstd::prelude::*;

use crate::doubles::{lemma_proportional, proportion, proportional, unsigned};
use crate::actions::Direction;
use crate::geometry::{add_saturating, minus, plus, Orientation, Rectangle};
use crate::units::saturate_i32;

verus! {

/// What the layout knows of a window.
#[derive(Clone, Copy, Debug, PartialEq, Eq, Structural)]
pub struct Window {
    /// The identity of the window.
    pub id: u64,
    /// Whether it is a stack of windows.
    pub stack: bool,
    pub activated: bool,
    pub fullscreen: bool,
    pub maximized: bool,
    /// Whether the client committed the size it was last asked for.
    pub latest_size_committed: bool,
    /// Whether the client was told that it is being resized.
    pub resizing: bool,
}

/// Where a group shows that something can be dropped: along one of its edges, or behind one of
/// its children.
#[derive(Clone, Copy, Debug, PartialEq, Eq, Structural)]
pub enum PillIndicator {
    Outer(Direction),
    Inner(usize),
}

/// What a placeholder keeps free: the place of a window that is being dragged, or the place
/// where it would be dropped.
#[derive(Clone, Copy, Debug, PartialEq, Eq, Structural)]
pub enum PlaceholderType {
    GrabbedWindow,
    DropZone,
}

/// What a node of the tiling tree holds.
#[derive(Debug)]
pub enum Data {
    Group {
        orientation: Orientation,
        /// The extents of the children along the orientation.
        sizes: Vec<i32>,
        last_geometry: Rectangle,
        pill_indicator: Option<PillIndicator>,
    },
    Mapped { mapped: Window, last_geometry: Rectangle, minimize_rect: Option<Rectangle> },
    Placeholder { last_geometry: Rectangle, type_: PlaceholderType },
}

/// What a node of the tiling tree holds, as the contracts speak of it.
#[verifier::ext_equal]
pub enum DataView {
    Group {
        orientation: Orientation,
        sizes: Seq<i32>,
        last_geometry: Rectangle,
        pill_indicator: Option<PillIndicator>,
    },
    Mapped { mapped: Window, last_geometry: Rectangle, minimize_rect: Option<Rectangle> },
    Placeholder { last_geometry: Rectangle, type_: PlaceholderType },
}

impl View for Data {
    type V = DataView;

    open spec fn view(&self) -> DataView {
        match *self {
            Data::Group { orientation, sizes, last_geometry, pill_indicator } => DataView::Group {
                orientation,
                sizes: sizes@,
                last_geometry,
                pill_indicator,
            },
            Data::Mapped { mapped, last_geometry, minimize_rect } => DataView::Mapped {
                mapped,
                last_geometry,
                minimize_rect,
            },
            Data::Placeholder { last_geometry, type_ } => DataView::Placeholder {
                last_geometry,
                type_,
            },
        }
    }
}

/// The sum of the extents.
pub open spec fn sum(sizes: Seq<i32>) -> int
    decreases sizes.len(),
{
    if sizes.len() == 0 {
        0
    } else {
        sum(sizes.drop_last()) + sizes.last()
    }
}

/// `len`, which is a part of `from`, in proportion to `to`, to the nearest whole pixel of what
/// doubles give. A part of nothing becomes as much as there can be.
pub open spec fn scaled(len: int, from: int, to: int) -> i32 {
    if len == 0 || to == 0 {
        0
    } else {
        let magnitude = if from == 0 {
            i32::MAX + 1
        } else {
            proportional(unsigned(len), unsigned(from), unsigned(to))
        };
        if (len < 0) == ((from < 0) == (to < 0)) {
            saturate_i32(-magnitude) as i32
        } else {
            saturate_i32(magnitude) as i32
        }
    }
}

/// All extents in proportion.
pub open spec fn rescaled(sizes: Seq<i32>, from: int, to: int) -> Seq<i32> {
    Seq::new(sizes.len(), |i: int| scaled(sizes[i] as int, from, to))
}

/// The extents with the last one changed so that they add up to `length`.
pub open spec fn settled(sizes: Seq<i32>, length: int) -> Seq<i32> {
    if sizes.len() == 0 || sum(sizes) == length {
        sizes
    } else {
        sizes.update(sizes.len() - 1, plus(sizes.last() as int, length - sum(sizes)))
    }
}

/// The extent of a new child of a group that has `count` children: an equal share, rounded
/// towards zero.
pub open spec fn equal_share(length: int, count: int) -> int {
    if length >= 0 {
        length / (count + 1)
    } else {
        -((-length) / (count + 1))
    }
}

/// The extents of a group of this length after a child was inserted at `index`.
pub open spec fn sizes_with(sizes: Seq<i32>, length: int, index: int) -> Seq<i32> {
    let rest = rescaled(sizes, length, length - equal_share(length, sizes.len() as int));
    rest.insert(index, minus(length, sum(rest)))
}

/// The extents of a group of this length after the child at `index` was taken out.
pub open spec fn sizes_without(sizes: Seq<i32>, length: int, index: int) -> Seq<i32> {
    let rest = sizes.remove(index);
    let grown = Seq::new(
        rest.len(),
        |i: int| plus(rest[i] as int, scaled(rest[i] as int, sum(rest), sizes[index] as int) as int),
    );
    settled(grown, length)
}

impl DataView {
    /// The area that the node had last.
    pub open spec fn geometry(self) -> Rectangle {
        match self {
            DataView::Group { last_geometry, .. } => last_geometry,
            DataView::Mapped { last_geometry, .. } => last_geometry,
            DataView::Placeholder { last_geometry, .. } => last_geometry,
        }
    }

    /// The number of children that the node has room for; one for what is not a group.
    pub open spec fn spec_len(self) -> nat {
        match self {
            DataView::Group { sizes, .. } => sizes.len(),
            _ => 1,
        }
    }

    /// The orientation of a group.
    pub open spec fn spec_orientation(self) -> Orientation {
        self->Group_orientation
    }

    /// Whether the node is the window `id`.
    pub open spec fn is_window(self, id: u64) -> bool {
        self matches DataView::Mapped { mapped, .. } && mapped.id == id
    }

    /// Whether the node is a stack of windows.
    pub open spec fn spec_is_stack(self) -> bool {
        self matches DataView::Mapped { mapped, .. } && mapped.stack
    }

    /// Whether the node takes a place on the scrolling strip.
    pub open spec fn is_tile(self) -> bool {
        match self {
            DataView::Group { .. } => false,
            DataView::Mapped { .. } => true,
            DataView::Placeholder { type_, .. } => type_ is GrabbedWindow,
        }
    }

    /// The node in another area: the children of a group share it in proportion.
    pub open spec fn placed(self, geometry: Rectangle) -> DataView {
        match self {
            DataView::Group { orientation, sizes, last_geometry, pill_indicator } => {
                let from = last_geometry.extent(orientation) as int;
                let to = geometry.extent(orientation) as int;
                DataView::Group {
                    orientation,
                    sizes: settled(rescaled(sizes, from, to), to),
                    last_geometry: geometry,
                    pill_indicator,
                }
            },
            DataView::Mapped { mapped, minimize_rect, .. } => DataView::Mapped {
                mapped,
                last_geometry: geometry,
                minimize_rect,
            },
            DataView::Placeholder { type_, .. } => DataView::Placeholder {
                last_geometry: geometry,
                type_,
            },
        }
    }

    /// A group with these extents.
    pub open spec fn with_sizes(self, sizes: Seq<i32>) -> DataView {
        DataView::Group {
            orientation: self->Group_orientation,
            sizes,
            last_geometry: self->Group_last_geometry,
            pill_indicator: self->pill_indicator,
        }
    }

    /// A group with room for another child at `index`.
    pub open spec fn with_child(self, index: int) -> DataView {
        self.with_sizes(
            sizes_with(
                self->sizes,
                self.geometry().extent(self.spec_orientation()) as int,
                index,
            ),
        )
    }

    /// A group without the room for its child at `index`.
    pub open spec fn without_child(self, index: int) -> DataView {
        self.with_sizes(
            sizes_without(
                self->sizes,
                self.geometry().extent(self.spec_orientation()) as int,
                index,
            ),
        )
    }

    /// A group with the extents of two children exchanged.
    pub open spec fn with_swapped(self, first: int, second: int) -> DataView {
        self.with_sizes(
            self->sizes.update(first, self->sizes[second]).update(second, self->sizes[first]),
        )
    }

    /// A group that shows where something can be dropped, or does not.
    pub open spec fn with_pill(self, pill_indicator: Option<PillIndicator>) -> DataView {
        match self {
            DataView::Group { orientation, sizes, last_geometry, .. } => DataView::Group {
                orientation,
                sizes,
                last_geometry,
                pill_indicator,
            },
            _ => self,
        }
    }

    /// A window that comes from another place, or does not.
    pub open spec fn with_minimize_rect(self, minimize_rect: Option<Rectangle>) -> DataView {
        match self {
            DataView::Mapped { mapped, last_geometry, .. } => DataView::Mapped {
                mapped,
                last_geometry,
                minimize_rect,
            },
            _ => self,
        }
    }

    /// A new group for two children.
    pub open spec fn fresh_group(orientation: Orientation, geometry: Rectangle) -> DataView {
        let length = geometry.extent(orientation) as int;
        let half = if length >= 0 {
            length / 2
        } else {
            -((-length) / 2)
        };
        DataView::Group {
            orientation,
            sizes: seq![half as i32, half as i32],
            last_geometry: geometry,
            pill_indicator: None,
        }
    }
}

/// A proportion of a part is no longer than what the part is scaled to, and off by half a pixel
/// and hardly more.
pub proof fn lemma_scaled_part(len: int, from: int, to: int)
    requires
        0 <= len <= from,
        0 < from,
        0 <= to <= i32::MAX,
    ensures
        0 <= scaled(len, from, to) <= to,
        -0x4_0000_0000_0000 * from - len * to <= 0x4_0000_0000_0000 * (2 * (from * scaled(
            len,
            from,
            to,
        )) - 2 * (len * to)) <= 0x4_0000_0000_0000 * from + len * to,
{
    if len == 0 || to == 0 {
        assert(len * to == 0) by (nonlinear_arith)
            requires
                len == 0 || to == 0,
        ;
    } else {
        lemma_proportional(len, from, to);
    }
}

/// The extents of a settled group add up to its length, if the last one can be as long as
/// that takes.
pub proof fn lemma_settled_sum(sizes: Seq<i32>, length: int)
    requires
        sizes.len() > 0,
        i32::MIN <= sizes.last() + (length - sum(sizes)) <= i32::MAX,
    ensures
        sum(settled(sizes, length)) == length,
{
    if sum(sizes) != length {
        let changed = settled(sizes, length);
        assert(changed.drop_last() =~= sizes.drop_last());
    }
}

/// `len`, which is a part of `from`, in proportion to `to`.
pub(crate) fn scale(len: i32, from: i128, to: i32) -> (result: i32)
    requires
        -0x1_0000_0000_0000_0000_0000_0000 <= from <= 0x1_0000_0000_0000_0000_0000_0000,
    ensures
        result == scaled(len as int, from as int, to as int),
{
    if len == 0 || to == 0 {
        return 0;
    }
    let part: i128 = if len < 0 {
        -(len as i128)
    } else {
        len as i128
    };
    let whole: i128 = if from < 0 {
        -from
    } else {
        from
    };
    let other: i128 = if to < 0 {
        -(to as i128)
    } else {
        to as i128
    };
    let magnitude: i128 = if from == 0 {
        0x8000_0000
    } else {
        proportion(part as u128, whole as u128, other as u128) as i128
    };
    let rounded: i128 = if (len < 0) == ((from < 0) == (to < 0)) {
        -magnitude
    } else {
        magnitude
    };
    if rounded < i32::MIN as i128 {
        i32::MIN
    } else if rounded > i32::MAX as i128 {
        i32::MAX
    } else {
        rounded as i32
    }
}

/// The sum of the extents.
pub fn sum_of(sizes: &Vec<i32>) -> (total: i128)
    ensures
        total == sum(sizes@),
        -0x1_0000_0000_0000_0000_0000_0000 <= total <= 0x1_0000_0000_0000_0000_0000_0000,
{
    let mut total: i128 = 0;
    let mut i: usize = 0;
    while i < sizes.len()
        invariant
            i <= sizes@.len(),
            total == sum(sizes@.take(i as int)),
            -(i * 0x8000_0000) <= total <= i * 0x8000_0000,
        decreases sizes@.len() - i,
    {
        assert(sizes@.take(i as int + 1).drop_last() =~= sizes@.take(i as int));
        total = total + sizes[i] as i128;
        i += 1;
    }
    assert(sizes@.take(sizes@.len() as int) =~= sizes@);
    total
}

/// Changes the last extent so that all add up to `length`.
pub(crate) fn settle(sizes: &mut Vec<i32>, length: i32)
    ensures
        final(sizes)@ == settled(old(sizes)@, length as int),
{
    let count: usize = sizes.len();
    let total: i128 = sum_of(sizes);
    if count > 0 && total != length as i128 {
        let fixed: i128 = sizes[count - 1] as i128 + (length as i128 - total);
        let last: i32 = if fixed < i32::MIN as i128 {
            i32::MIN
        } else if fixed > i32::MAX as i128 {
            i32::MAX
        } else {
            fixed as i32
        };
        sizes.set(count - 1, last);
    }
}

/// Brings all extents into proportion.
pub(crate) fn rescale(sizes: &mut Vec<i32>, from: i128, to: i32)
    requires
        -0x1_0000_0000_0000_0000_0000_0000 <= from <= 0x1_0000_0000_0000_0000_0000_0000,
    ensures
        final(sizes)@ == rescaled(old(sizes)@, from as int, to as int),
{
    let ghost before = sizes@;
    let mut i: usize = 0;
    while i < sizes.len()
        invariant
            i <= sizes@.len() == before.len(),
            -0x1_0000_0000_0000_0000_0000_0000 <= from <= 0x1_0000_0000_0000_0000_0000_0000,
            forall|k: int|
                0 <= k < i ==> #[trigger] sizes@[k] == scaled(
                    before[k] as int,
                    from as int,
                    to as int,
                ),
            forall|k: int| i <= k < before.len() ==> #[trigger] sizes@[k] == before[k],
        decreases sizes@.len() - i,
    {
        let size: i32 = scale(sizes[i], from, to);
        sizes.set(i, size);
        i += 1;
    }
    assert(sizes@ =~= rescaled(before, from as int, to as int));
}

/// A copy of `sizes`.
pub fn copy_sizes(sizes: &Vec<i32>) -> (copy: Vec<i32>)
    ensures
        copy@ == sizes@,
{
    let mut copy: Vec<i32> = Vec::new();
    let mut i: usize = 0;
    while i < sizes.len()
        invariant
            i <= sizes@.len(),
            copy@ == sizes@.take(i as int),
        decreases sizes@.len() - i,
    {
        copy.push(sizes[i]);
        assert(copy@ =~= sizes@.take(i as int + 1));
        i += 1;
    }
    assert(sizes@.take(sizes@.len() as int) =~= sizes@);
    copy
}

/// Brings the extents of a group from one length to another: in proportion, with what rounding
/// leaves over in the last one.
pub fn resize_all(sizes: &mut Vec<i32>, from: i32, to: i32)
    ensures
        final(sizes)@ == settled(rescaled(old(sizes)@, from as int, to as int), to as int),
{
    rescale(sizes, from as i128, to);
    settle(sizes, to);
}

/// Brings the extents of a group in proportion to another length; where they fall short of it,
/// the last one gets the rest.
pub fn stretch_all(sizes: &mut Vec<i32>, from: i32, to: i32)
    ensures
        ({
            let rest = rescaled(old(sizes)@, from as int, to as int);
            final(sizes)@ == if sum(rest) < to {
                settled(rest, to as int)
            } else {
                rest
            }
        }),
{
    rescale(sizes, from as i128, to);
    if sum_of(sizes) < to as i128 {
        settle(sizes, to);
    }
}

impl Clone for Data {
    fn clone(&self) -> (copy: Self)
        ensures
            copy@ == self@,
    {
        match self {
            Data::Group { orientation, sizes, last_geometry, pill_indicator } => Data::Group {
                orientation: *orientation,
                sizes: copy_sizes(sizes),
                last_geometry: *last_geometry,
                pill_indicator: *pill_indicator,
            },
            Data::Mapped { mapped, last_geometry, minimize_rect } => Data::Mapped {
                mapped: *mapped,
                last_geometry: *last_geometry,
                minimize_rect: *minimize_rect,
            },
            Data::Placeholder { last_geometry, type_ } => Data::Placeholder {
                last_geometry: *last_geometry,
                type_: *type_,
            },
        }
    }
}

impl Data {
    /// A new group for two children, each with half of the area.
    pub fn new_group(orientation: Orientation, geo: Rectangle) -> (group: Data)
        ensures
            group@ == DataView::fresh_group(orientation, geo),
    {
        let half: i32 = geo.length(orientation) / 2;
        let mut sizes: Vec<i32> = Vec::new();
        sizes.push(half);
        sizes.push(half);
        assert(sizes@ =~= DataView::fresh_group(orientation, geo)->sizes);
        Data::Group { orientation, sizes, last_geometry: geo, pill_indicator: None }
    }

    /// Whether this is a group.
    pub fn is_group(&self) -> (yes: bool)
        ensures
            yes == (self@ is Group),
    {
        matches!(self, Data::Group { .. })
    }

    /// Whether this is a window: the given one, or any.
    pub fn is_mapped(&self, mapped: Option<u64>) -> (yes: bool)
        ensures
            yes == match mapped {
                Some(id) => self@.is_window(id),
                None => self@ is Mapped,
            },
    {
        match self {
            Data::Mapped { mapped: window, .. } => match mapped {
                Some(id) => window.id == id,
                None => true,
            },
            _ => false,
        }
    }

    /// Whether this is a stack of windows.
    pub fn is_stack(&self) -> (yes: bool)
        ensures
            yes == self@.spec_is_stack(),
    {
        match self {
            Data::Mapped { mapped, .. } => mapped.stack,
            _ => false,
        }
    }

    /// Whether this is a placeholder.
    pub fn is_placeholder(&self) -> (yes: bool)
        ensures
            yes == (self@ is Placeholder),
    {
        matches!(self, Data::Placeholder { .. })
    }

    /// Whether this takes a place on the scrolling strip: a window, or the place of a window
    /// that is being dragged.
    pub fn takes_tile(&self) -> (yes: bool)
        ensures
            yes == self@.is_tile(),
    {
        match self {
            Data::Group { .. } => false,
            Data::Mapped { .. } => true,
            Data::Placeholder { type_, .. } => matches!(type_, PlaceholderType::GrabbedWindow),
        }
    }

    /// The orientation of a group.
    pub fn orientation(&self) -> (orientation: Orientation)
        requires
            self@ is Group,
        ensures
            orientation == self@.spec_orientation(),
    {
        match self {
            Data::Group { orientation, .. } => *orientation,
            _ => Orientation::Horizontal,
        }
    }

    /// Makes room in a group for another child at `idx`: an equal share, taken from the other
    /// children in proportion.
    pub fn add_window(&mut self, idx: usize)
        requires
            old(self)@ is Group,
            idx <= old(self)@->sizes.len(),
        ensures
            final(self)@ == old(self)@.with_child(idx as int),
    {
        let ghost before = self@;
        match self {
            Data::Group { sizes, last_geometry, orientation, .. } => {
                let length: i32 = last_geometry.length(*orientation);
                let count: i128 = sizes.len() as i128;
                let share: i128 = if length >= 0 {
                    length as i128 / (count + 1)
                } else {
                    -((-(length as i128)) / (count + 1))
                };
                assert(share == equal_share(length as int, count as int));
                assert(-0x8000_0000 <= share <= 0x7fff_ffff && (length >= 0 ==> 0 <= share <= length)
                    && (length < 0 ==> length <= share <= 0)) by (nonlinear_arith)
                    requires
                        share == equal_share(length as int, count as int),
                        count >= 0,
                        -0x8000_0000 <= length <= 0x7fff_ffff,
                ;
                rescale(sizes, length as i128, (length as i128 - share) as i32);
                let total: i128 = sum_of(sizes);
                let rest: i128 = length as i128 - total;
                let size: i32 = if rest < i32::MIN as i128 {
                    i32::MIN
                } else if rest > i32::MAX as i128 {
                    i32::MAX
                } else {
                    rest as i32
                };
                sizes.insert(idx, size);
            },
            _ => {},
        }
        assert(self@ =~~= before.with_child(idx as int));
    }

    /// Exchanges the extents of two children of a group.
    pub fn swap_windows(&mut self, i: usize, j: usize)
        requires
            old(self)@ is Group,
            i < old(self)@->sizes.len(),
            j < old(self)@->sizes.len(),
        ensures
            final(self)@ == old(self)@.with_swapped(i as int, j as int),
    {
        let ghost before = self@;
        match self {
            Data::Group { sizes, .. } => {
                let first: i32 = sizes[i];
                let second: i32 = sizes[j];
                sizes.set(i, second);
                sizes.set(j, first);
            },
            _ => {},
        }
        assert(self@ =~~= before.with_swapped(i as int, j as int));
    }

    /// Takes the room of the child at `idx` away from a group, and gives it to the other
    /// children in proportion.
    pub fn remove_window(&mut self, idx: usize)
        requires
            old(self)@ is Group,
            idx < old(self)@->sizes.len(),
        ensures
            final(self)@ == old(self)@.without_child(idx as int),
    {
        let ghost before = self@;
        match self {
            Data::Group { sizes, last_geometry, orientation, .. } => {
                let length: i32 = last_geometry.length(*orientation);
                let old_size: i32 = sizes.remove(idx);
                let ghost rest = sizes@;
                let remaining: i128 = sum_of(sizes);
                let mut i: usize = 0;
                while i < sizes.len()
                    invariant
                        i <= sizes@.len() == rest.len(),
                        remaining == sum(rest),
                        -0x1_0000_0000_0000_0000_0000_0000 <= remaining
                            <= 0x1_0000_0000_0000_0000_0000_0000,
                        forall|k: int|
                            0 <= k < i ==> #[trigger] sizes@[k] == plus(
                                rest[k] as int,
                                scaled(rest[k] as int, sum(rest), old_size as int) as int,
                            ),
                        forall|k: int| i <= k < rest.len() ==> #[trigger] sizes@[k] == rest[k],
                    decreases sizes@.len() - i,
                {
                    let size: i32 = sizes[i];
                    let grown: i32 = add_saturating(size, scale(size, remaining, old_size));
                    sizes.set(i, grown);
                    i += 1;
                }
                let ghost grown = Seq::new(
                    rest.len(),
                    |k: int|
                        plus(
                            rest[k] as int,
                            scaled(rest[k] as int, sum(rest), old_size as int) as int,
                        ),
                );
                assert(sizes@ =~= grown);
                settle(sizes, length);
            },
            _ => {},
        }
        assert(self@ =~~= before.without_child(idx as int));
    }

    /// The area that the node had last.
    pub fn geometry(&self) -> (geometry: Rectangle)
        ensures
            geometry == self@.geometry(),
    {
        match self {
            Data::Group { last_geometry, .. } => *last_geometry,
            Data::Mapped { last_geometry, .. } => *last_geometry,
            Data::Placeholder { last_geometry, .. } => *last_geometry,
        }
    }

    /// Gives the node another area. The children of a group share it in proportion.
    pub fn update_geometry(&mut self, geo: Rectangle)
        ensures
            final(self)@ == old(self)@.placed(geo),
    {
        let ghost before = self@;
        match self {
            Data::Group { orientation, sizes, last_geometry, .. } => {
                resize_all(sizes, last_geometry.length(*orientation), geo.length(*orientation));
                *last_geometry = geo;
            },
            Data::Mapped { last_geometry, .. } => {
                *last_geometry = geo;
            },
            Data::Placeholder { last_geometry, .. } => {
                *last_geometry = geo;
            },
        }
        assert(self@ =~~= before.placed(geo));
    }

    /// The number of children that the node has room for; one for what is not a group.
    pub fn len(&self) -> (len: usize)
        ensures
            len == self@.spec_len(),
    {
        match self {
            Data::Group { sizes, .. } => sizes.len(),
            _ => 1,
        }
    }

    /// Sets or clears what a group shows of a drop.
    pub fn set_pill(&mut self, pill: Option<PillIndicator>)
        ensures
            final(self)@ == old(self)@.with_pill(pill),
    {
        let ghost before = self@;
        match self {
            Data::Group { pill_indicator, .. } => {
                *pill_indicator = pill;
            },
            _ => {},
        }
        assert(self@ =~~= before.with_pill(pill));
    }

    /// Sets or clears the place that a window comes from.
    pub fn set_minimize_rect(&mut self, rect: Option<Rectangle>)
        ensures
            final(self)@ == old(self)@.with_minimize_rect(rect),
    {
        let ghost before = self@;
        match self {
            Data::Mapped { minimize_rect, .. } => {
                *minimize_rect = rect;
            },
            _ => {},
        }
        assert(self@ =~~= before.with_minimize_rect(rect));
    }
}

} // verus!
