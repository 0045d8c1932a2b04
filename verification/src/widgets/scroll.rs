//! Layout of a scrollable list: which items are visible and where each one goes.
use crate::area::Area;
use vstd::prelude::*;

verus! {

/// The direction in which increasing item indices are laid out.
#[derive(Copy, Clone, Debug, PartialEq, Eq, Hash, Structural)]
pub enum ScrollDirection {
    /// Places increasing indices from top to bottom.
    Forward,
    /// Places increasing indices from bottom to top.
    Backward,
}

/// One visible item of a scrolled list: its index, whether it is the selected one, and its area.
#[derive(Copy, Clone, Debug, PartialEq, Eq, Structural)]
pub struct ScrollSlot {
    /// Index of the item in the list.
    pub index: usize,
    /// Whether the item is the (clamped) selected item.
    pub selected: bool,
    /// The rows the item is rendered in.
    pub area: Area,
}

/// How many complete items of `size` rows fit in `area`, at most `len`.
pub open spec fn visible_count(area: Area, size: u16, len: usize) -> int {
    if size == 0 {
        0
    } else if area.h / size <= len {
        (area.h / size) as int
    } else {
        len as int
    }
}

/// The selected index clamped to the list.
pub open spec fn clamped_selection(len: usize, selected: usize) -> int {
    if len == 0 {
        0
    } else if selected < len {
        selected as int
    } else {
        len - 1
    }
}

/// The index of the first visible item: the selection is kept in view and centred when enough
/// items exist on both sides.
pub open spec fn first_visible(len: usize, visible: int, selected: int) -> int {
    if len <= visible {
        0
    } else {
        let back = if selected >= visible / 2 { selected - visible / 2 } else { 0 };
        if back <= len - visible { back } else { len - visible }
    }
}

/// The top row of the `i`-th visible item.
pub open spec fn slot_row(area: Area, size: u16, direction: ScrollDirection, i: int) -> int {
    match direction {
        ScrollDirection::Forward => area.y + i * size,
        ScrollDirection::Backward => area.y + area.h - i * size - size,
    }
}

/// The `i`-th visible item of a scrolled list.
pub open spec fn scroll_slot(
    area: Area,
    size: u16,
    direction: ScrollDirection,
    len: usize,
    selected: usize,
    i: int,
) -> ScrollSlot {
    let visible = visible_count(area, size, len);
    let sel = clamped_selection(len, selected);
    let index = first_visible(len, visible, sel) + i;
    ScrollSlot {
        index: index as usize,
        selected: index == sel,
        area: Area { x: area.x, y: slot_row(area, size, direction, i) as u16, w: area.w, h: size },
    }
}

/// Whether every row that the layout works out fits in a `u16`.
pub open spec fn scroll_fits(area: Area, size: u16, direction: ScrollDirection, len: usize) -> bool {
    let visible = visible_count(area, size, len);
    visible == 0 || match direction {
        ScrollDirection::Forward => area.y + (visible - 1) * size <= u16::MAX,
        ScrollDirection::Backward => area.y + area.h <= u16::MAX,
    }
}

proof fn lemma_rows(area: Area, size: u16, len: usize, i: int)
    requires
        size > 0,
        0 <= i < visible_count(area, size, len),
    ensures
        0 <= i * size,
        i * size + size <= visible_count(area, size, len) * size,
        visible_count(area, size, len) * size <= area.h,
        (visible_count(area, size, len) - 1) * size + size == visible_count(area, size, len) * size,
        i * size <= (visible_count(area, size, len) - 1) * size,
{
    let v = visible_count(area, size, len);
    let q = area.h / size;
    vstd::arithmetic::div_mod::lemma_fundamental_div_mod(area.h as int, size as int);
    assert(q * size <= area.h) by (nonlinear_arith)
        requires
            area.h == size * q + area.h % size,
            0 <= area.h % size,
    ;
    assert(v * size <= q * size) by (nonlinear_arith)
        requires
            0 <= v <= q,
            size > 0,
    ;
    assert(i * size + size <= v * size && 0 <= i * size) by (nonlinear_arith)
        requires
            0 <= i < v,
            size > 0,
    ;
    assert((v - 1) * size + size == v * size) by (nonlinear_arith);
    assert(i * size <= (v - 1) * size) by (nonlinear_arith)
        requires
            0 <= i <= v - 1,
            size > 0,
    ;
}


/// The visible items are consecutive indices of the list, and the clamped selection is one of
/// them: exactly one visible item is marked selected.
pub proof fn lemma_scroll_keeps_selection_visible(
    area: Area,
    size: u16,
    direction: ScrollDirection,
    len: usize,
    selected: usize,
)
    requires
        visible_count(area, size, len) > 0,
    ensures
        ({
            let visible = visible_count(area, size, len);
            let sel = clamped_selection(len, selected);
            let start = first_visible(len, visible, sel);
            &&& 0 <= start && start + visible <= len
            &&& start <= sel < start + visible
            &&& forall|i: int|
                0 <= i < visible ==> (#[trigger] scroll_slot(
                    area,
                    size,
                    direction,
                    len,
                    selected,
                    i,
                )).index == start + i
            &&& forall|i: int|
                0 <= i < visible ==> (#[trigger] scroll_slot(
                    area,
                    size,
                    direction,
                    len,
                    selected,
                    i,
                )).selected == (i == sel - start)
        }),
{
}


/// The selection is clamped to the list: the selected visible item is item `selected` when it
/// exists, and the last item when `selected` is at or past the end; it is always visible.
pub proof fn lemma_scroll_selects_clamped_item(
    area: Area,
    size: u16,
    direction: ScrollDirection,
    len: usize,
    selected: usize,
)
    requires
        visible_count(area, size, len) > 0,
    ensures
        exists|i: int|
            0 <= i < visible_count(area, size, len) && (#[trigger] scroll_slot(
                area,
                size,
                direction,
                len,
                selected,
                i,
            )).selected,
        forall|i: int|
            0 <= i < visible_count(area, size, len) && (#[trigger] scroll_slot(
                area,
                size,
                direction,
                len,
                selected,
                i,
            )).selected ==> scroll_slot(area, size, direction, len, selected, i).index == if selected
                < len {
                selected
            } else {
                (len - 1) as usize
            },
{
    lemma_scroll_keeps_selection_visible(area, size, direction, len, selected);
    let visible = visible_count(area, size, len);
    let sel = clamped_selection(len, selected);
    let start = first_visible(len, visible, sel);
    assert(scroll_slot(area, size, direction, len, selected, sel - start).selected);
}


/// As many complete items are shown as fit in the area, but no more than the list holds.
pub proof fn lemma_scroll_shows_as_many_as_fit(area: Area, size: u16, len: usize)
    requires
        size > 0,
    ensures
        0 <= visible_count(area, size, len) <= len,
        visible_count(area, size, len) * size <= area.h,
        visible_count(area, size, len) == len || (visible_count(area, size, len) + 1) * size
            > area.h,
{
    let v = visible_count(area, size, len);
    let q = area.h / size;
    vstd::arithmetic::div_mod::lemma_fundamental_div_mod(area.h as int, size as int);
    assert(v * size <= area.h) by (nonlinear_arith)
        requires
            area.h == size * q + area.h % size,
            0 <= area.h % size,
            0 <= v <= q,
            size > 0,
    ;
    if v != len {
        assert((v + 1) * size > area.h) by (nonlinear_arith)
            requires
                v == q,
                area.h == size * q + area.h % size,
                area.h % size < size,
        ;
    }
}

/// The window of shown items follows the (clamped) selection: it starts half a window before
/// the selection when the list allows it, at the first item when the selection is near the
/// start, and so that the last item ends it when the selection is near the end.
pub proof fn lemma_scroll_window(
    area: Area,
    size: u16,
    direction: ScrollDirection,
    len: usize,
    selected: usize,
)
    requires
        visible_count(area, size, len) > 0,
    ensures
        ({
            let v = visible_count(area, size, len);
            let sel: int = if selected < len { selected as int } else { len - 1 };
            let first = scroll_slot(area, size, direction, len, selected, 0).index as int;
            &&& len <= v ==> first == 0
            &&& len > v && sel < v / 2 ==> first == 0
            &&& len > v && sel >= v / 2 && sel - v / 2 + v <= len ==> first == sel - v / 2
            &&& len > v && sel >= v / 2 && sel - v / 2 + v > len ==> first == len - v
        }),
{
}

/// When enough items exist on both sides of the selection, it is centred: half the visible
/// items (rounded down) come before it.
pub proof fn lemma_scroll_centres_selection(area: Area, size: u16, len: usize, selected: usize)
    requires
        visible_count(area, size, len) > 0,
        ({
            let visible = visible_count(area, size, len);
            let sel = clamped_selection(len, selected);
            &&& len > visible
            &&& sel >= visible / 2
            &&& sel - visible / 2 + visible <= len
        }),
    ensures
        first_visible(len, visible_count(area, size, len), clamped_selection(len, selected))
            == clamped_selection(len, selected) - visible_count(area, size, len) / 2,
{
}

/// Every visible item lies completely inside the area; forward items go down from the top edge
/// and backward items go up from the bottom edge, mirroring each other.
pub proof fn lemma_scroll_slots_inside(area: Area, size: u16, len: usize)
    requires
        visible_count(area, size, len) > 0,
    ensures
        forall|direction: ScrollDirection, i: int|
            0 <= i < visible_count(area, size, len) ==> {
                &&& area.y <= #[trigger] slot_row(area, size, direction, i)
                &&& slot_row(area, size, direction, i) + size <= area.y + area.h
            },
        forall|i: int, j: int|
            0 <= i < j < visible_count(area, size, len) ==> #[trigger] slot_row(
                area,
                size,
                ScrollDirection::Forward,
                i,
            ) + size <= #[trigger] slot_row(area, size, ScrollDirection::Forward, j),
        forall|i: int|
            0 <= i < visible_count(area, size, len) ==> #[trigger] slot_row(
                area,
                size,
                ScrollDirection::Backward,
                i,
            ) - area.y == area.h - size - (slot_row(area, size, ScrollDirection::Forward, i)
                - area.y),
{
    assert forall|direction: ScrollDirection, i: int|
        0 <= i < visible_count(area, size, len) implies {
        &&& area.y <= #[trigger] slot_row(area, size, direction, i)
        &&& slot_row(area, size, direction, i) + size <= area.y + area.h
    } by {
        lemma_rows(area, size, len, i);
    }
    assert forall|i: int, j: int| 0 <= i < j < visible_count(area, size, len) implies #[trigger] slot_row(
        area,
        size,
        ScrollDirection::Forward,
        i,
    ) + size <= #[trigger] slot_row(area, size, ScrollDirection::Forward, j) by {
        lemma_rows(area, size, len, i);
        assert(i * size + size <= j * size) by (nonlinear_arith)
            requires
                0 <= i < j,
                size > 0,
        ;
    }
}

/// Whether the rows of a scrolled list fit in a `u16`; the list can be laid out exactly then.
pub fn scroll_layout_fits(area: Area, size: u16, direction: ScrollDirection, len: usize) -> (fits: bool)
    ensures
        fits == scroll_fits(area, size, direction, len),
{
    if size == 0 {
        return true;
    }
    let per_area: usize = (area.h / size) as usize;
    let visible: usize = if per_area <= len { per_area } else { len };
    if visible == 0 {
        return true;
    }
    proof {
        lemma_rows(area, size, len, 0);
    }
    match direction {
        ScrollDirection::Forward => {
            let last: u32 = ((visible - 1) as u16) as u32 * size as u32;
            area.y as u32 + last <= u16::MAX as u32
        },
        ScrollDirection::Backward => area.y as u32 + area.h as u32 <= u16::MAX as u32,
    }
}

/// The visible items of a list of `len` items of `size` rows in `area`, keeping the selected
/// item in view.
///
/// Only complete items are laid out. The selected index is clamped to the list and centred when
/// enough items exist on both sides. Nothing is laid out for a zero `size`.
pub fn scroll_layout(
    area: Area,
    size: u16,
    direction: ScrollDirection,
    len: usize,
    selected: usize,
) -> (slots: Vec<ScrollSlot>)
    requires
        scroll_fits(area, size, direction, len),
    ensures
        slots@.len() == visible_count(area, size, len),
        forall|i: int|
            0 <= i < slots@.len() ==> #[trigger] slots@[i] == scroll_slot(
                area,
                size,
                direction,
                len,
                selected,
                i,
            ),
{
    let mut slots: Vec<ScrollSlot> = Vec::new();
    if size == 0 {
        return slots;
    }
    let per_area: usize = (area.h / size) as usize;
    let visible: usize = if per_area <= len { per_area } else { len };
    if visible == 0 {
        return slots;
    }
    let last: usize = if len >= 1 { len - 1 } else { 0 };
    let sel: usize = if selected <= last { selected } else { last };
    let start: usize = if len <= visible {
        0
    } else {
        let back: usize = sel.saturating_sub(visible / 2);
        if back <= len - visible { back } else { len - visible }
    };
    let mut i: usize = 0;
    while i < visible
        invariant
            0 <= i <= visible,
            size > 0,
            visible == visible_count(area, size, len),
            visible > 0,
            sel == clamped_selection(len, selected),
            start == first_visible(len, visible as int, sel as int),
            start + visible <= len,
            scroll_fits(area, size, direction, len),
            slots@.len() == i,
            forall|j: int|
                0 <= j < i ==> #[trigger] slots@[j] == scroll_slot(
                    area,
                    size,
                    direction,
                    len,
                    selected,
                    j,
                ),
        decreases visible - i,
    {
        proof {
            lemma_rows(area, size, len, i as int);
        }
        let idx: usize = start + i;
        let is_selected = idx == sel;
        let offset: u16 = i as u16 * size;
        let y: u16 = match direction {
            ScrollDirection::Forward => area.y + offset,
            ScrollDirection::Backward => area.y + area.h - offset - size,
        };
        let slot_area = Area::new(area.x, y, area.w, size);
        slots.push(ScrollSlot { index: idx, selected: is_selected, area: slot_area });
        i += 1;
    }
    slots
}

} // verus!
