//! Layout of stacked items: each item gets a slice of the parent area along one axis.
use crate::area::Area;
use crate::layout::{
    base_length, can_grow, growable_weight, growth_room, growth_weight,
    lemma_resolved_fits, lemma_resolved_reserves_requests, lemma_resolved_weighted_share,
    lemma_resolved_within_bounds, lemma_sum_of_nonneg, requested, resolve_lengths, resolved,
    sum_of, upper_bound, LengthConstraint,
};
use vstd::prelude::*;

verus! {

/// A size constraint for a stack item along the chosen layout axis.
///
/// A percentage of the available length is an exact length once it is worked out, and is
/// given here as `Exact`.
#[derive(Copy, Clone, Debug, PartialEq, Eq, Structural)]
pub enum Constraint {
    /// Requests an exact number of cells.
    Exact(u16),
    /// Receives remaining cells in proportion to the supplied weight.
    Fill(u16),
    /// Reserves a minimum number of cells, then shares remaining cells with weight `1`.
    Min(u16),
    /// Shares remaining cells with weight `1`, up to the supplied maximum.
    Max(u16),
}

/// The length constraint that a stack constraint stands for.
pub open spec fn length_constraint_of(c: Constraint) -> LengthConstraint {
    match c {
        Constraint::Exact(length) => LengthConstraint::Fixed(length),
        Constraint::Fill(weight) => if weight == 0 {
            LengthConstraint::Fixed(0)
        } else {
            LengthConstraint::Flexible { minimum: 0, weight, maximum: None }
        },
        Constraint::Min(minimum) => LengthConstraint::Flexible {
            minimum,
            weight: 1,
            maximum: None,
        },
        Constraint::Max(maximum) => LengthConstraint::Flexible {
            minimum: 0,
            weight: 1,
            maximum: Some(maximum),
        },
    }
}

/// The lengths that stacked items with these constraints get out of `available` cells.
pub open spec fn stack_lengths(available: u16, cs: Seq<Constraint>) -> Seq<u16> {
    resolved(available, cs.map_values(|c: Constraint| length_constraint_of(c)))
}

/// Where item `i` starts: `start` moved past the items before it, saturating at `u16::MAX`.
pub open spec fn stack_offset(start: u16, lengths: Seq<u16>, i: int) -> u16 {
    if start + sum_of(lengths.take(i)) > u16::MAX {
        u16::MAX
    } else {
        (start + sum_of(lengths.take(i))) as u16
    }
}

/// The area of item `i` of a vertical stack in `area`: none for an item that gets no rows.
pub open spec fn vertical_slot(area: Area, lengths: Seq<u16>, i: int) -> Option<Area> {
    if area.h == 0 || lengths[i] == 0 {
        None
    } else {
        Some(Area { x: area.x, y: stack_offset(area.y, lengths, i), w: area.w, h: lengths[i] })
    }
}

/// The area of item `i` of a horizontal stack in `area`: none for an item that gets no columns.
pub open spec fn horizontal_slot(area: Area, lengths: Seq<u16>, i: int) -> Option<Area> {
    if area.w == 0 || lengths[i] == 0 {
        None
    } else {
        Some(Area { x: stack_offset(area.x, lengths, i), y: area.y, w: lengths[i], h: area.h })
    }
}

/// The cells a stack item asks for before any sharing: an exact length or a minimum.
pub open spec fn stack_request(c: Constraint) -> int {
    match c {
        Constraint::Exact(length) => length as int,
        Constraint::Min(minimum) => minimum as int,
        Constraint::Fill(_) => 0,
        Constraint::Max(_) => 0,
    }
}

/// The cells the stack items ask for before any sharing.
pub open spec fn stack_requested(cs: Seq<Constraint>) -> int
    decreases cs.len(),
{
    if cs.len() == 0 {
        0
    } else {
        stack_requested(cs.drop_last()) + stack_request(cs.last())
    }
}

/// The weight with which a stack item shares the cells that are left: its fill weight, 1 for a
/// minimum or a positive maximum, and none for an exact length.
pub open spec fn stack_weight(c: Constraint) -> int {
    match c {
        Constraint::Exact(_) => 0,
        Constraint::Fill(weight) => weight as int,
        Constraint::Min(_) => 1,
        Constraint::Max(maximum) => if maximum > 0 { 1 } else { 0 },
    }
}

/// The sum of the sharing weights of the stack items.
pub open spec fn stack_total_weight(cs: Seq<Constraint>) -> int
    decreases cs.len(),
{
    if cs.len() == 0 {
        0
    } else {
        stack_total_weight(cs.drop_last()) + stack_weight(cs.last())
    }
}

/// How many cells a stack item can take from the sharing: up to its maximum, or without limit.
pub open spec fn stack_room(c: Constraint) -> int {
    match c {
        Constraint::Exact(_) => 0,
        Constraint::Fill(weight) => if weight > 0 { u16::MAX as int } else { 0 },
        Constraint::Min(_) => u16::MAX as int,
        Constraint::Max(maximum) => maximum as int,
    }
}

proof fn lemma_stack_terms(cs: Seq<Constraint>)
    ensures
        requested(cs.map_values(|c: Constraint| length_constraint_of(c))) == stack_requested(cs),
        growable_weight(cs.map_values(|c: Constraint| length_constraint_of(c)))
            == stack_total_weight(cs),
    decreases cs.len(),
{
    let lcs = cs.map_values(|c: Constraint| length_constraint_of(c));
    if cs.len() > 0 {
        let d = cs.drop_last();
        lemma_stack_terms(d);
        assert(lcs.drop_last() =~= d.map_values(|c: Constraint| length_constraint_of(c)));
        assert(lcs.map_values(|c: LengthConstraint| base_length(c)).drop_last()
            =~= d.map_values(|c: Constraint| length_constraint_of(c)).map_values(
            |c: LengthConstraint| base_length(c),
        ));
        assert(lcs.last() == length_constraint_of(cs.last()));
    } else {
        assert(lcs.map_values(|c: LengthConstraint| base_length(c)) =~= Seq::<u16>::empty());
    }
}

/// When the exact lengths and minimums fit, they are reserved first: an exact item gets exactly
/// its length, a minimum item at least its minimum, and a maximum item never more than its
/// maximum.
pub proof fn lemma_stack_reserves_requests(available: u16, cs: Seq<Constraint>)
    requires
        stack_requested(cs) <= available,
    ensures
        stack_lengths(available, cs).len() == cs.len(),
        forall|i: int|
            0 <= i < cs.len() ==> {
                &&& (cs[i] matches Constraint::Exact(l) ==> #[trigger] stack_lengths(
                    available,
                    cs,
                )[i] == l)
                &&& (cs[i] matches Constraint::Min(m) ==> stack_lengths(available, cs)[i] >= m)
                &&& (cs[i] matches Constraint::Max(m) ==> stack_lengths(available, cs)[i] <= m)
            },
{
    let lcs = cs.map_values(|c: Constraint| length_constraint_of(c));
    lemma_stack_terms(cs);
    lemma_resolved_fits(available, lcs);
    lemma_resolved_reserves_requests(available, lcs);
    lemma_resolved_within_bounds(available, lcs);
    assert forall|i: int| 0 <= i < cs.len() implies {
        &&& (cs[i] matches Constraint::Exact(l) ==> #[trigger] stack_lengths(available, cs)[i]
            == l)
        &&& (cs[i] matches Constraint::Min(m) ==> stack_lengths(available, cs)[i] >= m)
        &&& (cs[i] matches Constraint::Max(m) ==> stack_lengths(available, cs)[i] <= m)
    } by {
        assert(lcs[i] == length_constraint_of(cs[i]));
        assert(resolved(available, lcs)[i] >= base_length(lcs[i]));
        assert(resolved(available, lcs)[i] <= upper_bound(lcs[i]));
    }
}

/// When the exact lengths and minimums fit, every item that shares gets at least its share of
/// the cells left, in proportion to its weight (rounded down), up to its room: two fills of
/// weights 1 and 2 sharing 6 cells get at least 2 and 4.
pub proof fn lemma_stack_weighted_share(available: u16, cs: Seq<Constraint>, i: int)
    requires
        stack_requested(cs) <= available,
        0 <= i < cs.len(),
        stack_weight(cs[i]) > 0,
    ensures
        ({
            let share = (available - stack_requested(cs)) * stack_weight(cs[i])
                / stack_total_weight(cs);
            stack_lengths(available, cs)[i] >= stack_request(cs[i]) + if share <= stack_room(
                cs[i],
            ) {
                share
            } else {
                stack_room(cs[i])
            }
        }),
{
    let lcs = cs.map_values(|c: Constraint| length_constraint_of(c));
    lemma_stack_terms(cs);
    assert(lcs[i] == length_constraint_of(cs[i]));
    assert(can_grow(lcs[i]));
    assert(growth_weight(lcs[i]) == stack_weight(cs[i]));
    assert(growth_room(lcs[i]) == stack_room(cs[i]));
    assert(base_length(lcs[i]) == stack_request(cs[i]));
    lemma_resolved_weighted_share(available, lcs, i);
}

fn to_length_constraint(constraint: Constraint) -> (c: LengthConstraint)
    ensures
        c == length_constraint_of(constraint),
{
    match constraint {
        Constraint::Exact(length) => LengthConstraint::fixed(length),
        Constraint::Fill(weight) => LengthConstraint::flexible(0, weight, None),
        Constraint::Min(minimum) => LengthConstraint::flexible(minimum, 1, None),
        Constraint::Max(maximum) => LengthConstraint::flexible(0, 1, Some(maximum)),
    }
}

proof fn lemma_sum_of_take(s: Seq<u16>, i: int)
    requires
        0 <= i < s.len(),
    ensures
        sum_of(s.take(i + 1)) == sum_of(s.take(i)) + s[i],
{
    assert(s.take(i + 1).drop_last() =~= s.take(i));
}


proof fn lemma_prefix_sums(s: Seq<u16>, i: int, j: int)
    requires
        0 <= i <= j <= s.len(),
    ensures
        0 <= sum_of(s.take(i)) <= sum_of(s.take(j)) <= sum_of(s),
    decreases s.len() - i,
{
    lemma_sum_of_nonneg(s.take(i));
    if i == s.len() {
        assert(s.take(i) =~= s);
    } else {
        lemma_sum_of_take(s, i);
        if i < j {
            lemma_prefix_sums(s, i + 1, j);
        } else {
            lemma_prefix_sums(s, i + 1, i + 1);
        }
    }
}

/// Where the lengths fit after `start` without passing `u16::MAX`, item `i` spans
/// `start + sum(lengths before i) .. + lengths[i]`, and an item ends before any later one starts.
proof fn lemma_offsets(start: u16, ls: Seq<u16>, available: u16)
    requires
        sum_of(ls) <= available,
        start + available <= u16::MAX,
    ensures
        forall|i: int|
            0 <= i < ls.len() ==> {
                &&& start <= #[trigger] stack_offset(start, ls, i)
                &&& stack_offset(start, ls, i) == start + sum_of(ls.take(i))
                &&& stack_offset(start, ls, i) + ls[i] <= start + available
            },
        forall|i: int, j: int|
            0 <= i < j < ls.len() ==> #[trigger] stack_offset(start, ls, i) + ls[i]
                <= #[trigger] stack_offset(start, ls, j),
{
    assert forall|i: int| 0 <= i < ls.len() implies {
        &&& start <= #[trigger] stack_offset(start, ls, i)
        &&& stack_offset(start, ls, i) == start + sum_of(ls.take(i))
        &&& stack_offset(start, ls, i) + ls[i] <= start + available
    } by {
        lemma_prefix_sums(ls, i, i + 1);
        lemma_prefix_sums(ls, i + 1, ls.len() as int);
        lemma_sum_of_take(ls, i);
    }
    assert forall|i: int, j: int| 0 <= i < j < ls.len() implies #[trigger] stack_offset(
        start,
        ls,
        i,
    ) + ls[i] <= #[trigger] stack_offset(start, ls, j) by {
        lemma_prefix_sums(ls, i + 1, j);
        lemma_prefix_sums(ls, j, ls.len() as int);
        lemma_prefix_sums(ls, i, i + 1);
        lemma_sum_of_take(ls, i);
    }
}

/// Items of a vertical stack keep the parent's columns, lie within its rows, and come one after
/// another from top to bottom without overlapping (for a parent that ends by row `u16::MAX`).
pub proof fn lemma_vertical_areas_tile(area: Area, cs: Seq<Constraint>)
    requires
        area.y + area.h <= u16::MAX,
    ensures
        forall|i: int|
            0 <= i < cs.len() ==> (#[trigger] vertical_slot(area, stack_lengths(area.h, cs), i)
                is Some <==> area.h > 0 && stack_lengths(area.h, cs)[i] > 0),
        forall|i: int|
            0 <= i < cs.len() && #[trigger] vertical_slot(area, stack_lengths(area.h, cs), i) is Some
                ==> {
                let a = vertical_slot(area, stack_lengths(area.h, cs), i)->0;
                &&& a.x == area.x && a.w == area.w
                &&& area.y <= a.y && a.y + a.h <= area.y + area.h
                &&& a.y == area.y + sum_of(stack_lengths(area.h, cs).take(i))
                &&& a.h == stack_lengths(area.h, cs)[i]
            },
        forall|i: int, j: int|
            0 <= i < j < cs.len() && #[trigger] vertical_slot(area, stack_lengths(area.h, cs), i) is Some
                && #[trigger] vertical_slot(area, stack_lengths(area.h, cs), j) is Some ==> {
                let a = vertical_slot(area, stack_lengths(area.h, cs), i)->0;
                let b = vertical_slot(area, stack_lengths(area.h, cs), j)->0;
                a.y + a.h <= b.y
            },
{
    let ls = stack_lengths(area.h, cs);
    lemma_resolved_fits(area.h, cs.map_values(|c: Constraint| length_constraint_of(c)));
    lemma_offsets(area.y, ls, area.h);
}

/// Items of a horizontal stack keep the parent's rows, lie within its columns, and come one
/// after another from left to right without overlapping (for a parent that ends by column
/// `u16::MAX`).
pub proof fn lemma_horizontal_areas_tile(area: Area, cs: Seq<Constraint>)
    requires
        area.x + area.w <= u16::MAX,
    ensures
        forall|i: int|
            0 <= i < cs.len() ==> (#[trigger] horizontal_slot(area, stack_lengths(area.w, cs), i)
                is Some <==> area.w > 0 && stack_lengths(area.w, cs)[i] > 0),
        forall|i: int|
            0 <= i < cs.len() && #[trigger] horizontal_slot(area, stack_lengths(area.w, cs), i) is Some
                ==> {
                let a = horizontal_slot(area, stack_lengths(area.w, cs), i)->0;
                &&& a.y == area.y && a.h == area.h
                &&& area.x <= a.x && a.x + a.w <= area.x + area.w
                &&& a.x == area.x + sum_of(stack_lengths(area.w, cs).take(i))
                &&& a.w == stack_lengths(area.w, cs)[i]
            },
        forall|i: int, j: int|
            0 <= i < j < cs.len() && #[trigger] horizontal_slot(area, stack_lengths(area.w, cs), i) is Some
                && #[trigger] horizontal_slot(area, stack_lengths(area.w, cs), j) is Some ==> {
                let a = horizontal_slot(area, stack_lengths(area.w, cs), i)->0;
                let b = horizontal_slot(area, stack_lengths(area.w, cs), j)->0;
                a.x + a.w <= b.x
            },
{
    let ls = stack_lengths(area.w, cs);
    lemma_resolved_fits(area.w, cs.map_values(|c: Constraint| length_constraint_of(c)));
    lemma_offsets(area.x, ls, area.w);
}

/// Resolves the constraints in `available` cells and places the items one after another from
/// `start`: one `(offset, length)` pair per constraint.
fn stack_segments(start: u16, available: u16, constraints: &[Constraint]) -> (segments: Vec<(u16, u16)>)
    ensures
        segments@.len() == constraints@.len(),
        forall|i: int|
            0 <= i < constraints@.len() ==> #[trigger] segments@[i] == (
                stack_offset(start, stack_lengths(available, constraints@), i),
                stack_lengths(available, constraints@)[i],
            ),
{
    let mut length_constraints: Vec<LengthConstraint> = Vec::new();
    let mut i: usize = 0;
    while i < constraints.len()
        invariant
            0 <= i <= constraints.len(),
            length_constraints@.len() == i,
            forall|j: int|
                0 <= j < i ==> #[trigger] length_constraints@[j] == length_constraint_of(
                    constraints@[j],
                ),
        decreases constraints.len() - i,
    {
        length_constraints.push(to_length_constraint(constraints[i]));
        i += 1;
    }
    assert(length_constraints@ =~= constraints@.map_values(|c: Constraint| length_constraint_of(c)));
    let lengths = resolve_lengths(available, length_constraints.as_slice());
    let ghost ls = lengths@;
    let mut segments: Vec<(u16, u16)> = Vec::new();
    let mut offset: u16 = start;
    let mut i: usize = 0;
    while i < lengths.len()
        invariant
            0 <= i <= lengths.len(),
            ls == lengths@,
            ls == stack_lengths(available, constraints@),
            ls.len() == constraints@.len(),
            segments@.len() == i,
            offset == stack_offset(start, ls, i as int),
            forall|j: int|
                0 <= j < i ==> #[trigger] segments@[j] == (stack_offset(start, ls, j), ls[j]),
        decreases lengths.len() - i,
    {
        proof {
            lemma_sum_of_take(ls, i as int);
            lemma_sum_of_nonneg(ls.take(i as int));
        }
        let length: u16 = lengths[i];
        segments.push((offset, length));
        offset = offset.saturating_add(length);
        i += 1;
    }
    segments
}

/// The areas of vertically stacked items in `area`, from top to bottom: one per constraint,
/// `None` for an item that gets no rows.
///
/// Fixed and minimum sizes are reserved first. Remaining rows are distributed among flexible
/// items. If the requested sizes exceed the available height, later items are clipped or
/// omitted.
pub fn vertical_areas(area: Area, constraints: &[Constraint]) -> (areas: Vec<Option<Area>>)
    ensures
        areas@.len() == constraints@.len(),
        forall|i: int|
            0 <= i < constraints@.len() ==> #[trigger] areas@[i] == vertical_slot(
                area,
                stack_lengths(area.h, constraints@),
                i,
            ),
{
    let mut areas: Vec<Option<Area>> = Vec::new();
    if area.h == 0 {
        let mut i: usize = 0;
        while i < constraints.len()
            invariant
                0 <= i <= constraints.len(),
                area.h == 0,
                areas@.len() == i,
                forall|j: int| 0 <= j < i ==> #[trigger] areas@[j] == None::<Area>,
            decreases constraints.len() - i,
        {
            areas.push(None);
            i += 1;
        }
        return areas;
    }
    let segments = stack_segments(area.y, area.h, constraints);
    let mut i: usize = 0;
    while i < segments.len()
        invariant
            0 <= i <= segments.len(),
            area.h != 0,
            segments@.len() == constraints@.len(),
            forall|j: int|
                0 <= j < constraints@.len() ==> #[trigger] segments@[j] == (
                    stack_offset(area.y, stack_lengths(area.h, constraints@), j),
                    stack_lengths(area.h, constraints@)[j],
                ),
            areas@.len() == i,
            forall|j: int|
                0 <= j < i ==> #[trigger] areas@[j] == vertical_slot(
                    area,
                    stack_lengths(area.h, constraints@),
                    j,
                ),
        decreases segments.len() - i,
    {
        let (y, height) = segments[i];
        if height == 0 {
            areas.push(None);
        } else {
            areas.push(Some(Area::new(area.x, y, area.w, height)));
        }
        i += 1;
    }
    areas
}

/// The areas of horizontally stacked items in `area`, from left to right: one per constraint,
/// `None` for an item that gets no columns.
///
/// Fixed and minimum sizes are reserved first. Remaining columns are distributed among flexible
/// items. If the requested sizes exceed the available width, later items are clipped or
/// omitted.
pub fn horizontal_areas(area: Area, constraints: &[Constraint]) -> (areas: Vec<Option<Area>>)
    ensures
        areas@.len() == constraints@.len(),
        forall|i: int|
            0 <= i < constraints@.len() ==> #[trigger] areas@[i] == horizontal_slot(
                area,
                stack_lengths(area.w, constraints@),
                i,
            ),
{
    let mut areas: Vec<Option<Area>> = Vec::new();
    if area.w == 0 {
        let mut i: usize = 0;
        while i < constraints.len()
            invariant
                0 <= i <= constraints.len(),
                area.w == 0,
                areas@.len() == i,
                forall|j: int| 0 <= j < i ==> #[trigger] areas@[j] == None::<Area>,
            decreases constraints.len() - i,
        {
            areas.push(None);
            i += 1;
        }
        return areas;
    }
    let segments = stack_segments(area.x, area.w, constraints);
    let mut i: usize = 0;
    while i < segments.len()
        invariant
            0 <= i <= segments.len(),
            area.w != 0,
            segments@.len() == constraints@.len(),
            forall|j: int|
                0 <= j < constraints@.len() ==> #[trigger] segments@[j] == (
                    stack_offset(area.x, stack_lengths(area.w, constraints@), j),
                    stack_lengths(area.w, constraints@)[j],
                ),
            areas@.len() == i,
            forall|j: int|
                0 <= j < i ==> #[trigger] areas@[j] == horizontal_slot(
                    area,
                    stack_lengths(area.w, constraints@),
                    j,
                ),
        decreases segments.len() - i,
    {
        let (x, width) = segments[i];
        if width == 0 {
            areas.push(None);
        } else {
            areas.push(Some(Area::new(x, area.y, width, area.h)));
        }
        i += 1;
    }
    areas
}

} // verus!
