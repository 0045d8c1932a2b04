//! Resolution of length constraints along one axis.
//!
//! Fixed lengths and minimums are reserved first. The space that is left is shared among the
//! flexible entries in rounds: each round gives every entry that can still grow its weighted
//! share of what is left (rounded down and capped by the entry's maximum); when the rounded
//! shares give nothing, single cells go to the growable entries in order. Finally the lengths
//! are clipped from the front so that they fit in the available length.
use vstd::prelude::*;

verus! {

/// How one item asks for space along the layout axis.
#[derive(Copy, Clone, Debug, PartialEq, Eq)]
pub enum LengthConstraint {
    /// Exactly this many cells (clipped when the space runs out).
    Fixed(u16),
    /// At least `minimum` cells, then a `weight`-proportional share of what is left, up to
    /// `maximum` when there is one.
    Flexible { minimum: u16, weight: u16, maximum: Option<u16> },
}

/// The length an item asks for before any space is shared out.
pub open spec fn base_length(c: LengthConstraint) -> u16 {
    match c {
        LengthConstraint::Fixed(length) => length,
        LengthConstraint::Flexible { minimum, .. } => minimum,
    }
}

/// Whether an item of this constraint can receive no more space at the given length.
pub open spec fn is_saturated(c: LengthConstraint, length: int) -> bool {
    match c {
        LengthConstraint::Fixed(_) => true,
        LengthConstraint::Flexible { weight, maximum, .. } => weight == 0 || match maximum {
            Some(m) => length >= m,
            None => false,
        },
    }
}

/// The largest length an item of this constraint can be given.
pub open spec fn upper_bound(c: LengthConstraint) -> int {
    match c {
        LengthConstraint::Fixed(length) => length as int,
        LengthConstraint::Flexible { minimum, weight, maximum } => if weight == 0 {
            minimum as int
        } else {
            match maximum {
                Some(m) => if m >= minimum { m as int } else { minimum as int },
                None => u16::MAX as int,
            }
        },
    }
}

/// The sum of a sequence of lengths.
pub open spec fn sum_of(s: Seq<u16>) -> int
    decreases s.len(),
{
    if s.len() == 0 {
        0
    } else {
        sum_of(s.drop_last()) + s.last()
    }
}

/// The total length that the constraints ask for before any sharing.
pub open spec fn requested(cs: Seq<LengthConstraint>) -> int {
    sum_of(cs.map_values(|c: LengthConstraint| base_length(c)))
}

/// Whether an item of this constraint takes part in sharing out the space that is left.
pub open spec fn can_grow(c: LengthConstraint) -> bool {
    match c {
        LengthConstraint::Fixed(_) => false,
        LengthConstraint::Flexible { minimum, weight, maximum } => weight > 0 && match maximum {
            None => true,
            Some(m) => m > minimum,
        },
    }
}

/// The weight with which an item shares out the space that is left: 0 when it cannot grow.
pub open spec fn growth_weight(c: LengthConstraint) -> int {
    match c {
        LengthConstraint::Flexible { weight, .. } => if can_grow(c) {
            weight as int
        } else {
            0
        },
        LengthConstraint::Fixed(_) => 0,
    }
}

/// The sum of the weights of the items that can grow.
pub open spec fn growable_weight(cs: Seq<LengthConstraint>) -> int
    decreases cs.len(),
{
    if cs.len() == 0 {
        0
    } else {
        growable_weight(cs.drop_last()) + growth_weight(cs.last())
    }
}

/// How many cells an item can take beyond what it asks for.
pub open spec fn growth_room(c: LengthConstraint) -> int {
    match c {
        LengthConstraint::Fixed(_) => 0,
        LengthConstraint::Flexible { minimum, weight, maximum } => if weight == 0 {
            0
        } else {
            match maximum {
                None => u16::MAX as int,
                Some(m) => if m > minimum { m - minimum } else { 0 },
            }
        },
    }
}

/// The state of one item while space is shared out.
#[derive(Copy, Clone)]
struct Entry {
    length: u16,
    weight: u16,
    maximum: Option<u16>,
}

spec fn entry_of(c: LengthConstraint) -> Entry {
    match c {
        LengthConstraint::Fixed(length) => Entry { length, weight: 0, maximum: Some(length) },
        LengthConstraint::Flexible { minimum, weight, maximum } => Entry {
            length: minimum,
            weight,
            maximum,
        },
    }
}

/// How many more cells an entry can take.
spec fn room_of(e: Entry) -> int {
    if e.weight == 0 {
        0
    } else {
        match e.maximum {
            None => u16::MAX as int,
            Some(m) => if m > e.length { m - e.length } else { 0 },
        }
    }
}

spec fn sat_add(a: u16, b: int) -> u16 {
    if a + b > u16::MAX { u16::MAX } else { (a + b) as u16 }
}

spec fn min_int(a: int, b: int) -> int {
    if a <= b { a } else { b }
}

spec fn with_length(e: Entry, length: u16) -> Entry {
    Entry { length, ..e }
}

spec fn sum_lengths(es: Seq<Entry>) -> int
    decreases es.len(),
{
    if es.len() == 0 {
        0
    } else {
        sum_lengths(es.drop_last()) + es.last().length
    }
}

/// The positions of the entries that can still grow, in increasing order.
spec fn pending_indices(es: Seq<Entry>) -> Seq<int>
    decreases es.len(),
{
    if es.len() == 0 {
        seq![]
    } else {
        let p = pending_indices(es.drop_last());
        if room_of(es.last()) > 0 {
            p.push(es.len() - 1)
        } else {
            p
        }
    }
}

/// How many entries before position `i` can still grow.
spec fn rank(es: Seq<Entry>, i: int) -> int {
    pending_indices(es.take(i)).len() as int
}

/// The sum of the weights of the entries at the given positions.
spec fn weight_sum(es: Seq<Entry>, idx: Seq<int>) -> int
    decreases idx.len(),
{
    if idx.len() == 0 {
        0
    } else {
        weight_sum(es, idx.drop_last()) + es[idx.last()].weight
    }
}

spec fn total_weight(es: Seq<Entry>) -> int {
    weight_sum(es, pending_indices(es))
}

/// The weighted share that an entry is offered out of `remaining` cells.
spec fn share(es: Seq<Entry>, remaining: int, e: Entry) -> int {
    remaining * e.weight / total_weight(es)
}

/// What an entry actually takes of its weighted share.
spec fn weighted_gain(es: Seq<Entry>, remaining: int, e: Entry) -> int {
    min_int(share(es, remaining, e), room_of(e))
}

/// The entries after one weighted round.
spec fn weighted_step(es: Seq<Entry>, remaining: int) -> Seq<Entry> {
    Seq::new(
        es.len(),
        |i: int|
            if room_of(es[i]) > 0 {
                with_length(es[i], sat_add(es[i].length, weighted_gain(es, remaining, es[i])))
            } else {
                es[i]
            },
    )
}

/// The cells given out by a weighted round, summed over the given positions.
spec fn gain_sum(es: Seq<Entry>, remaining: int, idx: Seq<int>) -> int
    decreases idx.len(),
{
    if idx.len() == 0 {
        0
    } else {
        gain_sum(es, remaining, idx.drop_last()) + weighted_gain(es, remaining, es[idx.last()])
    }
}

/// The cells given out by one weighted round.
spec fn distributed(es: Seq<Entry>, remaining: int) -> int {
    gain_sum(es, remaining, pending_indices(es))
}

/// The entries after one round of single cells.
spec fn remainder_step(es: Seq<Entry>, remaining: int) -> Seq<Entry> {
    Seq::new(
        es.len(),
        |i: int|
            if room_of(es[i]) > 0 && rank(es, i) < remaining {
                with_length(es[i], sat_add(es[i].length, 1))
            } else {
                es[i]
            },
    )
}

/// The entries once the `remaining` cells have been shared out.
spec fn grow(es: Seq<Entry>, remaining: nat) -> Seq<Entry>
    decreases remaining,
{
    let pc = pending_indices(es).len() as int;
    if remaining == 0 || pc == 0 {
        es
    } else {
        let d = distributed(es, remaining as int);
        if 0 < d && d <= remaining {
            grow(weighted_step(es, remaining as int), (remaining - d) as nat)
        } else {
            let given = min_int(remaining as int, pc);
            grow(remainder_step(es, remaining as int), (remaining - given) as nat)
        }
    }
}

/// The cells left once the base lengths are reserved.
spec fn initial_remaining(es: Seq<Entry>, available: u16) -> nat {
    if sum_lengths(es) >= available {
        0
    } else {
        (available - sum_lengths(es)) as nat
    }
}

/// Lengths clipped from the front so that they fit in `available` cells.
spec fn clip(s: Seq<u16>, available: u16) -> Seq<u16>
    decreases s.len(),
{
    if s.len() == 0 {
        seq![]
    } else {
        let p = clip(s.drop_last(), available);
        let left = available - sum_of(p);
        p.push(if s.last() <= left { s.last() } else { left as u16 })
    }
}

spec fn lengths_of(es: Seq<Entry>) -> Seq<u16> {
    es.map_values(|e: Entry| e.length)
}

spec fn entries_of(cs: Seq<LengthConstraint>) -> Seq<Entry> {
    cs.map_values(|c: LengthConstraint| entry_of(c))
}

/// The lengths that `resolve_lengths` gives the constraints `cs` in `available` cells.
pub closed spec fn resolved(available: u16, cs: Seq<LengthConstraint>) -> Seq<u16> {
    let base = entries_of(cs);
    clip(lengths_of(grow(base, initial_remaining(base, available))), available)
}


impl LengthConstraint {
    /// A constraint for exactly `length` cells.
    pub fn fixed(length: u16) -> (c: Self)
        ensures
            c == LengthConstraint::Fixed(length),
    {
        LengthConstraint::Fixed(length)
    }

    /// A flexible constraint; with weight 0 it takes no share and is the same as `fixed(minimum)`.
    pub fn flexible(minimum: u16, weight: u16, maximum: Option<u16>) -> (c: Self)
        ensures
            c == (if weight == 0 {
                LengthConstraint::Fixed(minimum)
            } else {
                LengthConstraint::Flexible { minimum, weight, maximum }
            }),
    {
        if weight == 0 {
            LengthConstraint::Fixed(minimum)
        } else {
            LengthConstraint::Flexible { minimum, weight, maximum }
        }
    }
}

impl Entry {
    fn new(constraint: LengthConstraint) -> (e: Self)
        ensures
            e == entry_of(constraint),
    {
        match constraint {
            LengthConstraint::Fixed(length) => Entry { length, weight: 0, maximum: Some(length) },
            LengthConstraint::Flexible { minimum, weight, maximum } => Entry {
                length: minimum,
                weight,
                maximum,
            },
        }
    }

    fn room(&self) -> (r: u16)
        ensures
            r == room_of(*self),
    {
        if self.weight == 0 {
            return 0;
        }
        match self.maximum {
            None => u16::MAX,
            Some(maximum) => maximum.saturating_sub(self.length),
        }
    }

    fn grow_by(&mut self, amount: u16) -> (assigned: u16)
        ensures
            assigned == min_int(amount as int, room_of(*old(self))),
            *final(self) == with_length(*old(self), sat_add(old(self).length, assigned as int)),
    {
        let room: u16 = self.room();
        let assigned: u16 = if amount <= room { amount } else { room };
        self.length = self.length.saturating_add(assigned);
        assigned
    }
}

proof fn lemma_take_drop_last(es: Seq<Entry>, j: int)
    requires
        es.len() > 0,
        0 <= j < es.len(),
    ensures
        es.take(j) == es.drop_last().take(j),
{
    assert(es.take(j) =~= es.drop_last().take(j));
}

/// The pending positions are exactly the growable entries, in order, and `rank` finds them.
proof fn lemma_pending(es: Seq<Entry>)
    ensures
        pending_indices(es).len() <= es.len(),
        rank(es, es.len() as int) == pending_indices(es).len(),
        forall|k: int|
            0 <= k < pending_indices(es).len() ==> {
                let p = #[trigger] pending_indices(es)[k];
                &&& 0 <= p < es.len()
                &&& room_of(es[p]) > 0
                &&& rank(es, p) == k
            },
        forall|j: int|
            0 <= j < es.len() && room_of(es[j]) > 0 ==> {
                &&& #[trigger] rank(es, j) < pending_indices(es).len()
                &&& pending_indices(es)[rank(es, j)] == j
            },
        forall|j: int|
            0 <= j <= es.len() ==> {
                &&& 0 <= #[trigger] rank(es, j) <= pending_indices(es).len()
                &&& pending_indices(es).take(rank(es, j)) == pending_indices(es.take(j))
            },
        forall|j: int|
            0 <= j < es.len() ==> #[trigger] rank(es, j + 1) == rank(es, j) + (if room_of(es[j])
                > 0 {
                1int
            } else {
                0int
            }),
    decreases es.len(),
{
    assert(es.take(es.len() as int) =~= es);
    let p = pending_indices(es);
    if es.len() == 0 {
        assert(p.take(0) =~= p);
    } else {
        let d = es.drop_last();
        let n = es.len() as int;
        lemma_pending(d);
        let q = pending_indices(d);
        assert forall|j: int| 0 <= j < n implies #[trigger] rank(es, j) == rank(d, j) by {
            lemma_take_drop_last(es, j);
        }
        assert(rank(es, n - 1) == q.len()) by {
            lemma_take_drop_last(es, n - 1);
            assert(d.take(n - 1) =~= d);
        }
        assert forall|k: int| 0 <= k < p.len() implies {
            let pk = #[trigger] p[k];
            &&& 0 <= pk < es.len()
            &&& room_of(es[pk]) > 0
            &&& rank(es, pk) == k
        } by {
            if k < q.len() {
                assert(p[k] == q[k]);
                assert(es[q[k]] == d[q[k]]);
            }
        }
        assert forall|j: int| 0 <= j < es.len() && room_of(es[j]) > 0 implies {
            &&& #[trigger] rank(es, j) < p.len()
            &&& p[rank(es, j)] == j
        } by {
            if j < n - 1 {
                assert(es[j] == d[j]);
            }
        }
        assert forall|j: int| 0 <= j <= es.len() implies {
            &&& 0 <= #[trigger] rank(es, j) <= p.len()
            &&& p.take(rank(es, j)) == pending_indices(es.take(j))
        } by {
            if j < n {
                lemma_take_drop_last(es, j);
                assert(p.take(rank(es, j)) =~= q.take(rank(d, j)));
            } else {
                assert(p.take(p.len() as int) =~= p);
            }
        }
        assert forall|j: int| 0 <= j < es.len() implies #[trigger] rank(es, j + 1) == rank(es, j)
            + (if room_of(es[j]) > 0 {
            1int
        } else {
            0int
        }) by {
            if j + 1 < n {
                assert(es[j] == d[j]);
            }
        }
    }
}


proof fn lemma_sum_lengths_take(es: Seq<Entry>, i: int)
    requires
        0 <= i < es.len(),
    ensures
        sum_lengths(es.take(i + 1)) == sum_lengths(es.take(i)) + es[i].length,
{
    assert(es.take(i + 1).drop_last() =~= es.take(i));
}

proof fn lemma_sum_lengths_nonneg(es: Seq<Entry>)
    ensures
        sum_lengths(es) >= 0,
    decreases es.len(),
{
    if es.len() > 0 {
        lemma_sum_lengths_nonneg(es.drop_last());
    }
}

/// The cells left once the entries' current lengths are reserved.
fn remaining_length(available: u16, entries: &Vec<Entry>) -> (r: u16)
    ensures
        r == initial_remaining(entries@, available),
{
    let mut used: u16 = 0;
    let mut i: usize = 0;
    while i < entries.len()
        invariant
            0 <= i <= entries.len(),
            used == min_int(sum_lengths(entries@.take(i as int)), available as int),
        decreases entries.len() - i,
    {
        proof {
            lemma_sum_lengths_take(entries@, i as int);
            lemma_sum_lengths_nonneg(entries@.take(i as int));
        }
        let length: u16 = entries[i].length;
        used = if length >= available - used { available } else { used + length };
        i += 1;
    }
    assert(entries@.take(entries.len() as int) =~= entries@);
    available - used
}

/// The positions of the entries that can still grow, in increasing order.
fn flexible_indices(entries: &Vec<Entry>) -> (pending: Vec<usize>)
    ensures
        pending@.len() == pending_indices(entries@).len(),
        forall|k: int|
            0 <= k < pending@.len() ==> #[trigger] pending@[k] as int == pending_indices(
                entries@,
            )[k],
{
    let mut pending: Vec<usize> = Vec::new();
    let mut i: usize = 0;
    while i < entries.len()
        invariant
            0 <= i <= entries.len(),
            pending@.len() == pending_indices(entries@.take(i as int)).len(),
            forall|k: int|
                0 <= k < pending@.len() ==> #[trigger] pending@[k] as int == pending_indices(
                    entries@.take(i as int),
                )[k],
        decreases entries.len() - i,
    {
        assert(entries@.take(i + 1).drop_last() =~= entries@.take(i as int));
        if entries[i].room() > 0 {
            pending.push(i);
        }
        i += 1;
    }
    assert(entries@.take(entries.len() as int) =~= entries@);
    pending
}


proof fn lemma_div_add_le(a: int, b: int, t: int)
    requires
        a >= 0,
        b >= 0,
        t > 0,
    ensures
        a / t + b / t <= (a + b) / t,
{
    vstd::arithmetic::div_mod::lemma_fundamental_div_mod(a, t);
    vstd::arithmetic::div_mod::lemma_fundamental_div_mod(b, t);
    vstd::arithmetic::div_mod::lemma_fundamental_div_mod(a + b, t);
    assert(a / t + b / t <= (a + b) / t) by (nonlinear_arith)
        requires
            a == t * (a / t) + a % t,
            b == t * (b / t) + b % t,
            a + b == t * ((a + b) / t) + (a + b) % t,
            0 <= a % t < t,
            0 <= b % t < t,
            0 <= (a + b) % t < t,
            t > 0,
    ;
}

proof fn lemma_share_bounded(r: int, w: int, t: int)
    requires
        r >= 0,
        0 <= w <= t,
        t > 0,
    ensures
        0 <= r * w / t <= r,
{
    vstd::arithmetic::mul::lemma_mul_inequality(w, t, r);
    vstd::arithmetic::div_mod::lemma_div_is_ordered(r * w, r * t, t);
    vstd::arithmetic::div_mod::lemma_div_multiples_vanish(r, t);
    assert(r * w >= 0) by (nonlinear_arith)
        requires
            r >= 0,
            w >= 0,
    ;
    vstd::arithmetic::div_mod::lemma_div_is_ordered(0, r * w, t);
    assert(w * r == r * w && t * r == r * t) by (nonlinear_arith);
}

proof fn lemma_weight_sum_step(es: Seq<Entry>, idx: Seq<int>, k: int)
    requires
        0 <= k < idx.len(),
    ensures
        weight_sum(es, idx.take(k + 1)) == weight_sum(es, idx.take(k)) + es[idx[k]].weight,
        forall|r: int|
            #[trigger] gain_sum(es, r, idx.take(k + 1)) == gain_sum(es, r, idx.take(k))
                + weighted_gain(es, r, es[idx[k]]),
{
    assert(idx.take(k + 1).drop_last() =~= idx.take(k));
}

proof fn lemma_weight_sum_prefix(es: Seq<Entry>, idx: Seq<int>, k: int)
    requires
        0 <= k <= idx.len(),
    ensures
        0 <= weight_sum(es, idx.take(k)) <= weight_sum(es, idx),
    decreases idx.len() - k,
{
    if k == idx.len() {
        assert(idx.take(k) =~= idx);
        lemma_weight_sum_nonneg(es, idx);
    } else {
        lemma_weight_sum_step(es, idx, k);
        lemma_weight_sum_prefix(es, idx, k + 1);
        lemma_weight_sum_nonneg(es, idx.take(k));
    }
}

proof fn lemma_weight_sum_nonneg(es: Seq<Entry>, idx: Seq<int>)
    ensures
        weight_sum(es, idx) >= 0,
    decreases idx.len(),
{
    if idx.len() > 0 {
        lemma_weight_sum_nonneg(es, idx.drop_last());
    }
}

/// An entry grown by up to `amount` cells, within its room.
spec fn grown_by(e: Entry, amount: int) -> Entry {
    with_length(e, sat_add(e.length, min_int(amount, room_of(e))))
}

/// A list of positions as integers.
spec fn as_indices(pending: Seq<usize>) -> Seq<int> {
    pending.map_values(|p: usize| p as int)
}

/// Every listed position is an entry.
spec fn in_range(es: Seq<Entry>, idx: Seq<int>) -> bool {
    forall|k: int| 0 <= k < idx.len() ==> 0 <= #[trigger] idx[k] < es.len()
}

/// No position is listed twice.
spec fn no_repeats(idx: Seq<int>) -> bool {
    forall|a: int, b: int| 0 <= a < b < idx.len() ==> #[trigger] idx[a] != #[trigger] idx[b]
}

/// The entries after the listed positions, in order, each took its share `r * weight / t` of
/// `r` cells, capped by its room at that moment.
spec fn weighted_fold(es: Seq<Entry>, r: int, t: int, idx: Seq<int>) -> Seq<Entry>
    decreases idx.len(),
{
    if idx.len() == 0 {
        es
    } else {
        let prev = weighted_fold(es, r, t, idx.drop_last());
        let p = idx.last();
        prev.update(p, grown_by(prev[p], r * prev[p].weight / t))
    }
}

/// The cells that `weighted_fold` gives out.
spec fn weighted_fold_gain(es: Seq<Entry>, r: int, t: int, idx: Seq<int>) -> int
    decreases idx.len(),
{
    if idx.len() == 0 {
        0
    } else {
        let prev = weighted_fold(es, r, t, idx.drop_last());
        let p = idx.last();
        weighted_fold_gain(es, r, t, idx.drop_last()) + min_int(
            r * prev[p].weight / t,
            room_of(prev[p]),
        )
    }
}

/// The sum, over the listed positions, of each entry's share capped by its room.
spec fn listed_gain(es: Seq<Entry>, r: int, t: int, idx: Seq<int>) -> int
    decreases idx.len(),
{
    if idx.len() == 0 {
        0
    } else {
        listed_gain(es, r, t, idx.drop_last()) + min_int(
            r * es[idx.last()].weight / t,
            room_of(es[idx.last()]),
        )
    }
}

proof fn lemma_weighted_fold_shape(es: Seq<Entry>, r: int, t: int, idx: Seq<int>)
    requires
        in_range(es, idx),
    ensures
        weighted_fold(es, r, t, idx).len() == es.len(),
        forall|j: int|
            0 <= j < es.len() ==> {
                &&& #[trigger] weighted_fold(es, r, t, idx)[j].weight == es[j].weight
                &&& weighted_fold(es, r, t, idx)[j].maximum == es[j].maximum
            },
    decreases idx.len(),
{
    if idx.len() > 0 {
        lemma_weighted_fold_shape(es, r, t, idx.drop_last());
    }
}

proof fn lemma_weighted_fold_take(es: Seq<Entry>, r: int, t: int, idx: Seq<int>, k: int)
    requires
        0 <= k < idx.len(),
    ensures
        weighted_fold(es, r, t, idx.take(k + 1)) == weighted_fold(es, r, t, idx.take(k)).update(
            idx[k],
            grown_by(
                weighted_fold(es, r, t, idx.take(k))[idx[k]],
                r * weighted_fold(es, r, t, idx.take(k))[idx[k]].weight / t,
            ),
        ),
        weighted_fold_gain(es, r, t, idx.take(k + 1)) == weighted_fold_gain(es, r, t, idx.take(k))
            + min_int(
            r * weighted_fold(es, r, t, idx.take(k))[idx[k]].weight / t,
            room_of(weighted_fold(es, r, t, idx.take(k))[idx[k]]),
        ),
{
    assert(idx.take(k + 1).drop_last() =~= idx.take(k));
}

/// The cells a weighted fold gives out are at most `r` times the listed weights over `t`.
proof fn lemma_weighted_fold_bound(es: Seq<Entry>, r: int, t: int, idx: Seq<int>)
    requires
        in_range(es, idx),
        r >= 0,
        t > 0,
    ensures
        weighted_fold_gain(es, r, t, idx) <= r * weight_sum(es, idx) / t,
    decreases idx.len(),
{
    if idx.len() > 0 {
        let d = idx.drop_last();
        let prev = weighted_fold(es, r, t, d);
        let p = idx.last();
        lemma_weighted_fold_bound(es, r, t, d);
        lemma_weighted_fold_shape(es, r, t, d);
        lemma_weight_sum_nonneg(es, d);
        assert(prev[p].weight == es[p].weight);
        assert(r * weight_sum(es, d) >= 0 && r * es[p].weight >= 0) by (nonlinear_arith)
            requires
                r >= 0,
                weight_sum(es, d) >= 0,
                es[p].weight >= 0,
        ;
        lemma_div_add_le(r * weight_sum(es, d), r * es[p].weight, t);
        assert(r * weight_sum(es, d) + r * es[p].weight == r * weight_sum(es, idx))
            by (nonlinear_arith)
            requires
                weight_sum(es, idx) == weight_sum(es, d) + es[p].weight,
        ;
    }
}

/// When no position is listed twice, each listed entry takes its share of the original entry,
/// capped by its original room, and the other entries stay as they were.
proof fn lemma_weighted_fold_distinct(es: Seq<Entry>, r: int, t: int, idx: Seq<int>)
    requires
        in_range(es, idx),
        no_repeats(idx),
    ensures
        forall|j: int|
            0 <= j < es.len() ==> #[trigger] weighted_fold(es, r, t, idx)[j] == (if idx.contains(
                j,
            ) {
                grown_by(es[j], r * es[j].weight / t)
            } else {
                es[j]
            }),
        weighted_fold_gain(es, r, t, idx) == listed_gain(es, r, t, idx),
    decreases idx.len(),
{
    if idx.len() > 0 {
        let d = idx.drop_last();
        let p = idx.last();
        assert(in_range(es, d) && no_repeats(d)) by {
            assert forall|a: int, b: int| 0 <= a < b < d.len() implies #[trigger] d[a]
                != #[trigger] d[b] by {
                assert(d[a] == idx[a] && d[b] == idx[b]);
            }
        }
        lemma_weighted_fold_distinct(es, r, t, d);
        lemma_weighted_fold_shape(es, r, t, d);
        assert(!d.contains(p)) by {
            if d.contains(p) {
                let a = choose|a: int| 0 <= a < d.len() && d[a] == p;
                assert(idx[a] == idx[idx.len() - 1]);
            }
        }
        assert forall|j: int| 0 <= j < es.len() implies #[trigger] weighted_fold(es, r, t, idx)[j]
            == (if idx.contains(j) {
            grown_by(es[j], r * es[j].weight / t)
        } else {
            es[j]
        }) by {
            if j == p {
                assert(idx[idx.len() - 1] == j);
            } else {
                if idx.contains(j) {
                    let a = choose|a: int| 0 <= a < idx.len() && idx[a] == j;
                    assert(d[a] == j);
                }
                if d.contains(j) {
                    let a = choose|a: int| 0 <= a < d.len() && d[a] == j;
                    assert(idx[a] == j);
                }
            }
        }
    }
}


proof fn lemma_listed_gain_is_gain_sum(es: Seq<Entry>, r: int, idx: Seq<int>)
    ensures
        listed_gain(es, r, total_weight(es), idx) == gain_sum(es, r, idx),
    decreases idx.len(),
{
    if idx.len() > 0 {
        lemma_listed_gain_is_gain_sum(es, r, idx.drop_last());
    }
}

/// Over the list of growable entries, a weighted round is `weighted_step` and gives out
/// `distributed` cells, which is at most `r`.
proof fn lemma_weighted_bridge(es: Seq<Entry>, r: int)
    requires
        r >= 0,
    ensures
        in_range(es, pending_indices(es)),
        no_repeats(pending_indices(es)),
        total_weight(es) == 0 ==> weighted_step(es, r) == es && distributed(es, r) == 0,
        total_weight(es) > 0 ==> listed_gain(es, r, total_weight(es), pending_indices(es))
            == distributed(es, r),
        total_weight(es) > 0 ==> forall|j: int|
            0 <= j < es.len() ==> #[trigger] weighted_step(es, r)[j] == (if pending_indices(
                es,
            ).contains(j) {
                grown_by(es[j], r * es[j].weight / total_weight(es))
            } else {
                es[j]
            }),
        distributed(es, r) <= r,
{
    let pidx = pending_indices(es);
    lemma_pending(es);
    assert(no_repeats(pidx)) by {
        assert forall|a: int, b: int| 0 <= a < b < pidx.len() implies #[trigger] pidx[a]
            != #[trigger] pidx[b] by {
            assert(rank(es, pidx[a]) == a && rank(es, pidx[b]) == b);
        }
    }
    assert forall|j: int| 0 <= j < es.len() implies (pidx.contains(j) <==> room_of(es[j]) > 0) by {
        if room_of(es[j]) > 0 {
            assert(pidx[rank(es, j)] == j);
        }
        if pidx.contains(j) {
            let a = choose|a: int| 0 <= a < pidx.len() && pidx[a] == j;
            assert(room_of(es[pidx[a]]) > 0);
        }
    }
    if total_weight(es) == 0 {
        if pidx.len() > 0 {
            lemma_weight_sum_prefix(es, pidx, 1);
            lemma_weight_sum_step(es, pidx, 0);
            assert(pidx.take(0) =~= Seq::<int>::empty());
            assert(false);
        }
        assert forall|j: int| 0 <= j < es.len() implies room_of(es[j]) <= 0 by {
            if room_of(es[j]) > 0 {
                assert(pidx[rank(es, j)] == j);
            }
        }
        assert(weighted_step(es, r) =~= es);
    } else {
        lemma_weight_sum_nonneg(es, pidx);
        lemma_listed_gain_is_gain_sum(es, r, pidx);
        lemma_weighted_fold_distinct(es, r, total_weight(es), pidx);
        lemma_weighted_fold_bound(es, r, total_weight(es), pidx);
        lemma_share_bounded(r, total_weight(es), total_weight(es));
    }
}

/// A weighted round over the listed positions: each takes its rounded-down share of
/// `remaining` by its weight against the listed weights, capped by its room. Returns the number
/// of cells given out.
fn distribute_weighted(entries: &mut Vec<Entry>, remaining: u16, pending: &Vec<usize>) -> (d: u16)
    requires
        forall|k: int| 0 <= k < pending@.len() ==> #[trigger] pending@[k] < old(entries)@.len(),
    ensures
        ({
            let es = old(entries)@;
            let idx = as_indices(pending@);
            let total = weight_sum(es, idx);
            &&& total == 0 ==> d == 0 && final(entries)@ == es
            &&& total > 0 ==> final(entries)@ == weighted_fold(es, remaining as int, total, idx)
                && d == weighted_fold_gain(es, remaining as int, total, idx)
            &&& total > 0 && no_repeats(idx) ==> d == listed_gain(es, remaining as int, total, idx)
                && forall|j: int|
                0 <= j < es.len() ==> #[trigger] final(entries)@[j] == (if idx.contains(j) {
                    grown_by(es[j], remaining * es[j].weight / total)
                } else {
                    es[j]
                })
        }),
        final(entries)@.len() == old(entries)@.len(),
        forall|j: int|
            0 <= j < old(entries)@.len() ==> {
                &&& (#[trigger] final(entries)@[j]).weight == old(entries)@[j].weight
                &&& final(entries)@[j].maximum == old(entries)@[j].maximum
            },
        d <= remaining,
{
    let ghost es = entries@;
    let ghost idx = as_indices(pending@);
    let ghost r = remaining as int;
    assert(in_range(es, idx));
    let mut total: u128 = 0;
    let mut k: usize = 0;
    while k < pending.len()
        invariant
            es == entries@,
            idx == as_indices(pending@),
            in_range(es, idx),
            0 <= k <= pending.len(),
            total == weight_sum(es, idx.take(k as int)),
            total <= k * 65535,
        decreases pending.len() - k,
    {
        proof {
            lemma_weight_sum_step(es, idx, k as int);
        }
        let index: usize = pending[k];
        total = total + entries[index].weight as u128;
        k += 1;
    }
    assert(idx.take(idx.len() as int) =~= idx);
    if total == 0 {
        return 0;
    }
    let ghost t = total as int;
    proof {
        lemma_weight_sum_prefix(es, idx, 0);
    }
    let mut given: u16 = 0;
    let mut k: usize = 0;
    assert(idx.take(0) =~= Seq::<int>::empty());
    while k < pending.len()
        invariant
            idx == as_indices(pending@),
            in_range(es, idx),
            0 <= k <= pending.len(),
            total == t,
            t == weight_sum(es, idx),
            t > 0,
            r == remaining,
            entries@ == weighted_fold(es, r, t, idx.take(k as int)),
            given == weighted_fold_gain(es, r, t, idx.take(k as int)),
        decreases pending.len() - k,
    {
        let index: usize = pending[k];
        let ghost prev = entries@;
        proof {
            lemma_weighted_fold_take(es, r, t, idx, k as int);
            lemma_weighted_fold_shape(es, r, t, idx.take(k as int));
            lemma_weighted_fold_bound(es, r, t, idx.take(k as int + 1));
            lemma_weight_sum_prefix(es, idx, k as int + 1);
            lemma_share_bounded(r, weight_sum(es, idx.take(k as int + 1)), t);
            lemma_weight_sum_step(es, idx, k as int);
            lemma_weight_sum_prefix(es, idx, k as int);
            assert(idx[k as int] == index);
            assert(weighted_fold(es, r, t, idx.take(k as int))[index as int].weight
                == es[index as int].weight);
            assert(weight_sum(es, idx.take(k as int + 1)) == weight_sum(es, idx.take(k as int))
                + es[index as int].weight);
            assert(es[index as int].weight <= t);
            lemma_share_bounded(r, prev[index as int].weight as int, t);
        }
        let weight: u16 = entries[index].weight;
        assert((remaining as u128) * (weight as u128) <= 65535 * 65535) by (nonlinear_arith)
            requires
                remaining <= 65535,
                weight <= 65535,
        ;
        let share_wide: u128 = (remaining as u128) * (weight as u128) / total;
        let share: u16 = share_wide as u16;
        let mut entry = entries[index];
        let assigned: u16 = entry.grow_by(share);
        entries.set(index, entry);
        given = given + assigned;
        k += 1;
    }
    proof {
        lemma_weighted_fold_shape(es, r, t, idx);
        lemma_weighted_fold_bound(es, r, t, idx);
        lemma_share_bounded(r, t, t);
        if no_repeats(idx) {
            lemma_weighted_fold_distinct(es, r, t, idx);
        }
    }
    given
}

/// The entries, cells left and whether any cell was given out, after the listed positions, in
/// order, each took one cell within its room at that moment, while cells were left.
spec fn remainder_fold(es: Seq<Entry>, rem: int, idx: Seq<int>) -> (Seq<Entry>, int, bool)
    decreases idx.len(),
{
    if idx.len() == 0 {
        (es, rem, false)
    } else {
        let (prev, left, any) = remainder_fold(es, rem, idx.drop_last());
        if left == 0 {
            (prev, left, any)
        } else {
            let p = idx.last();
            let a = min_int(1, room_of(prev[p]));
            (
                prev.update(p, with_length(prev[p], sat_add(prev[p].length, a))),
                left - a,
                any || a > 0,
            )
        }
    }
}

/// How many listed positions hold an entry that can grow.
spec fn growable_count(es: Seq<Entry>, idx: Seq<int>) -> int
    decreases idx.len(),
{
    if idx.len() == 0 {
        0
    } else {
        growable_count(es, idx.drop_last()) + (if room_of(es[idx.last()]) > 0 {
            1int
        } else {
            0int
        })
    }
}

proof fn lemma_remainder_fold_take(es: Seq<Entry>, rem: int, idx: Seq<int>, k: int)
    requires
        0 <= k < idx.len(),
    ensures
        remainder_fold(es, rem, idx.take(k + 1)) == ({
            let (prev, left, any) = remainder_fold(es, rem, idx.take(k));
            if left == 0 {
                (prev, left, any)
            } else {
                let p = idx[k];
                let a = min_int(1, room_of(prev[p]));
                (
                    prev.update(p, with_length(prev[p], sat_add(prev[p].length, a))),
                    left - a,
                    any || a > 0,
                )
            }
        }),
        growable_count(es, idx.take(k + 1)) == growable_count(es, idx.take(k)) + (if room_of(
            es[idx[k]],
        ) > 0 {
            1int
        } else {
            0int
        }),
{
    assert(idx.take(k + 1).drop_last() =~= idx.take(k));
}

/// Once no cells are left, the rest of the list changes nothing.
proof fn lemma_remainder_fold_stops(es: Seq<Entry>, rem: int, idx: Seq<int>, k: int)
    requires
        0 <= k <= idx.len(),
        remainder_fold(es, rem, idx.take(k)).1 == 0,
    ensures
        remainder_fold(es, rem, idx) == remainder_fold(es, rem, idx.take(k)),
    decreases idx.len() - k,
{
    if k == idx.len() {
        assert(idx.take(k) =~= idx);
    } else {
        lemma_remainder_fold_take(es, rem, idx, k);
        lemma_remainder_fold_stops(es, rem, idx, k + 1);
    }
}

/// The fold keeps the entries' number, weights and maxima and never gives out more cells than
/// it has; it gives out a cell exactly when cells are left and a listed entry can grow.
#[verifier::spinoff_prover]
proof fn lemma_remainder_fold_shape(es: Seq<Entry>, rem: int, idx: Seq<int>)
    requires
        in_range(es, idx),
        rem >= 0,
    ensures
        ({
            let (fs, left, any) = remainder_fold(es, rem, idx);
            &&& fs.len() == es.len()
            &&& forall|j: int|
                0 <= j < es.len() ==> {
                    &&& #[trigger] fs[j].weight == es[j].weight
                    &&& fs[j].maximum == es[j].maximum
                }
            &&& 0 <= left <= rem
            &&& any == (rem > 0 && exists|k: int|
                0 <= k < idx.len() && room_of(es[#[trigger] idx[k]]) > 0)
            &&& !any ==> fs == es && left == rem
        }),
    decreases idx.len(),
{
    if idx.len() > 0 {
        let d = idx.drop_last();
        let p = idx.last();
        lemma_remainder_fold_shape(es, rem, d);
        let (prev, left, any) = remainder_fold(es, rem, d);
        if any {
            let k = choose|k: int| 0 <= k < d.len() && room_of(es[#[trigger] d[k]]) > 0;
            assert(idx[k] == d[k]);
        } else {
            assert forall|k: int| 0 <= k < idx.len() - 1 implies !(room_of(
                es[#[trigger] idx[k]],
            ) > 0 && rem > 0) by {
                assert(idx[k] == d[k]);
            }
            if rem > 0 && room_of(es[p]) > 0 {
                assert(room_of(es[idx[idx.len() - 1]]) > 0);
            }
        }
    }
}

/// When no position is listed twice, the first `rem` growable listed entries take one cell each.
proof fn lemma_remainder_fold_distinct(es: Seq<Entry>, rem: int, idx: Seq<int>)
    requires
        in_range(es, idx),
        no_repeats(idx),
        rem >= 0,
    ensures
        ({
            let (fs, left, any) = remainder_fold(es, rem, idx);
            &&& forall|k: int|
                0 <= k < idx.len() ==> #[trigger] fs[idx[k]] == (if room_of(es[idx[k]]) > 0
                    && growable_count(es, idx.take(k)) < rem {
                    with_length(es[idx[k]], sat_add(es[idx[k]].length, 1))
                } else {
                    es[idx[k]]
                })
            &&& forall|j: int| 0 <= j < es.len() && !idx.contains(j) ==> #[trigger] fs[j] == es[j]
            &&& left == rem - min_int(rem, growable_count(es, idx))
        }),
    decreases idx.len(),
{
    if idx.len() > 0 {
        let d = idx.drop_last();
        let p = idx.last();
        let n = idx.len() - 1;
        assert(in_range(es, d) && no_repeats(d)) by {
            assert forall|a: int, b: int| 0 <= a < b < d.len() implies #[trigger] d[a]
                != #[trigger] d[b] by {
                assert(d[a] == idx[a] && d[b] == idx[b]);
            }
        }
        lemma_remainder_fold_distinct(es, rem, d);
        lemma_remainder_fold_shape(es, rem, d);
        let (prev, left, any) = remainder_fold(es, rem, d);
        assert(!d.contains(p)) by {
            if d.contains(p) {
                let a = choose|a: int| 0 <= a < d.len() && d[a] == p;
                assert(idx[a] == idx[n]);
            }
        }
        assert(prev[p] == es[p]);
        assert(idx.take(n) =~= d);
        let (fs, left2, any2) = remainder_fold(es, rem, idx);
        assert forall|k: int| 0 <= k < idx.len() implies #[trigger] fs[idx[k]] == (if room_of(
            es[idx[k]],
        ) > 0 && growable_count(es, idx.take(k)) < rem {
            with_length(es[idx[k]], sat_add(es[idx[k]].length, 1))
        } else {
            es[idx[k]]
        }) by {
            if k < n {
                assert(idx[k] == d[k]);
                assert(idx.take(k) =~= d.take(k));
                assert(idx[k] != p);
            }
        }
        assert forall|j: int| 0 <= j < es.len() && !idx.contains(j) implies #[trigger] fs[j]
            == es[j] by {
            assert(j != idx[n]);
            if d.contains(j) {
                let a = choose|a: int| 0 <= a < d.len() && d[a] == j;
                assert(idx[a] == j);
            }
        }
    }
}


proof fn lemma_growable_count_pending(es: Seq<Entry>, k: int)
    requires
        0 <= k <= pending_indices(es).len(),
    ensures
        growable_count(es, pending_indices(es).take(k)) == k,
    decreases k,
{
    if k > 0 {
        lemma_growable_count_pending(es, k - 1);
        lemma_remainder_fold_take(es, 0, pending_indices(es), k - 1);
        lemma_pending(es);
    } else {
        assert(pending_indices(es).take(0) =~= Seq::<int>::empty());
    }
}

/// Over the list of growable entries, a round of single cells is `remainder_step`: the first
/// `r` growable entries take one cell each.
proof fn lemma_remainder_bridge(es: Seq<Entry>, r: int)
    requires
        r >= 0,
    ensures
        forall|k: int|
            0 <= k <= pending_indices(es).len() ==> #[trigger] growable_count(
                es,
                pending_indices(es).take(k),
            ) == k,
        growable_count(es, pending_indices(es)) == pending_indices(es).len(),
        forall|k: int|
            0 <= k < pending_indices(es).len() ==> room_of(es[#[trigger] pending_indices(es)[k]])
                > 0,
        forall|j: int|
            0 <= j < es.len() ==> #[trigger] remainder_step(es, r)[j] == (if pending_indices(
                es,
            ).contains(j) && rank(es, j) < r {
                with_length(es[j], sat_add(es[j].length, 1))
            } else {
                es[j]
            }),
        forall|k: int|
            0 <= k < pending_indices(es).len() ==> rank(es, #[trigger] pending_indices(es)[k]) == k,
{
    let pidx = pending_indices(es);
    lemma_pending(es);
    assert forall|k: int| 0 <= k <= pidx.len() implies #[trigger] growable_count(
        es,
        pidx.take(k),
    ) == k by {
        lemma_growable_count_pending(es, k);
    }
    lemma_growable_count_pending(es, pidx.len() as int);
    assert(pidx.take(pidx.len() as int) =~= pidx);
    assert forall|j: int| 0 <= j < es.len() implies #[trigger] remainder_step(es, r)[j] == (if pidx.contains(
        j,
    ) && rank(es, j) < r {
        with_length(es[j], sat_add(es[j].length, 1))
    } else {
        es[j]
    }) by {
        if room_of(es[j]) > 0 {
            assert(pidx[rank(es, j)] == j);
        }
        if pidx.contains(j) {
            let a = choose|a: int| 0 <= a < pidx.len() && pidx[a] == j;
            assert(room_of(es[pidx[a]]) > 0);
        }
    }
}

/// One round of single cells over the listed positions: each takes one cell within its room,
/// in order, while cells are left. Returns whether any cell was given out.
fn distribute_remainder(
    entries: &mut Vec<Entry>,
    remaining: &mut u16,
    pending: &Vec<usize>,
) -> (assigned_any: bool)
    requires
        forall|k: int| 0 <= k < pending@.len() ==> #[trigger] pending@[k] < old(entries)@.len(),
    ensures
        ({
            let es = old(entries)@;
            let idx = as_indices(pending@);
            let rem = *old(remaining) as int;
            &&& (final(entries)@, *final(remaining) as int, assigned_any) == remainder_fold(
                es,
                rem,
                idx,
            )
            &&& assigned_any == (rem > 0 && exists|k: int|
                0 <= k < idx.len() && room_of(es[#[trigger] idx[k]]) > 0)
            &&& no_repeats(idx) ==> {
                &&& forall|k: int|
                    0 <= k < idx.len() ==> #[trigger] final(entries)@[idx[k]] == (if room_of(
                        es[idx[k]],
                    ) > 0 && growable_count(es, idx.take(k)) < rem {
                        with_length(es[idx[k]], sat_add(es[idx[k]].length, 1))
                    } else {
                        es[idx[k]]
                    })
                &&& forall|j: int|
                    0 <= j < es.len() && !idx.contains(j) ==> #[trigger] final(entries)@[j]
                        == es[j]
                &&& *final(remaining) == rem - min_int(rem, growable_count(es, idx))
            }
        }),
        final(entries)@.len() == old(entries)@.len(),
        forall|j: int|
            0 <= j < old(entries)@.len() ==> {
                &&& (#[trigger] final(entries)@[j]).weight == old(entries)@[j].weight
                &&& final(entries)@[j].maximum == old(entries)@[j].maximum
            },
{
    let ghost es = entries@;
    let ghost idx = as_indices(pending@);
    let ghost rem = *remaining as int;
    assert(in_range(es, idx));
    assert(idx.take(0) =~= Seq::<int>::empty());
    let mut assigned_any = false;
    let mut k: usize = 0;
    while k < pending.len() && *remaining > 0
        invariant
            idx == as_indices(pending@),
            in_range(es, idx),
            0 <= rem,
            0 <= k <= pending.len(),
            (entries@, *remaining as int, assigned_any) == remainder_fold(
                es,
                rem,
                idx.take(k as int),
            ),
        decreases pending.len() - k,
    {
        let index: usize = pending[k];
        proof {
            lemma_remainder_fold_take(es, rem, idx, k as int);
            assert(in_range(es, idx.take(k as int)));
            lemma_remainder_fold_shape(es, rem, idx.take(k as int));
            assert(idx[k as int] == index);
        }
        let mut entry = entries[index];
        let assigned: u16 = entry.grow_by(1);
        entries.set(index, entry);
        *remaining -= assigned;
        assigned_any = assigned_any || assigned > 0;
        k += 1;
    }
    proof {
        if k < pending.len() {
            lemma_remainder_fold_stops(es, rem, idx, k as int);
        } else {
            assert(idx.take(k as int) =~= idx);
        }
        lemma_remainder_fold_shape(es, rem, idx);
        let fs = remainder_fold(es, rem, idx).0;
        assert(entries@ == fs);
        assert forall|j: int| 0 <= j < es.len() implies {
            &&& (#[trigger] entries@[j]).weight == es[j].weight
            &&& entries@[j].maximum == es[j].maximum
        } by {
            assert(fs[j].weight == es[j].weight);
        }
        if no_repeats(idx) {
            lemma_remainder_fold_distinct(es, rem, idx);
        }
        assert(es == old(entries)@);
        assert(entries@.len() == es.len());
    }
    assigned_any
}

proof fn lemma_gain_terms(es: Seq<Entry>, r: int, idx: Seq<int>)
    requires
        r >= 0,
        total_weight(es) > 0,
        forall|k: int| 0 <= k < idx.len() ==> room_of(es[#[trigger] idx[k]]) >= 0,
    ensures
        forall|k: int|
            0 <= k < idx.len() ==> 0 <= #[trigger] weighted_gain(es, r, es[idx[k]]) <= gain_sum(
                es,
                r,
                idx,
            ),
        gain_sum(es, r, idx) >= 0,
    decreases idx.len(),
{
    if idx.len() > 0 {
        let d = idx.drop_last();
        assert forall|k: int| 0 <= k < d.len() implies room_of(es[#[trigger] d[k]]) >= 0 by {
            assert(d[k] == idx[k]);
        }
        lemma_gain_terms(es, r, d);
        assert forall|k: int| 0 <= k < idx.len() implies 0 <= #[trigger] weighted_gain(
            es,
            r,
            es[idx[k]],
        ) <= gain_sum(es, r, idx) by {
            let e = es[idx[k]];
            assert(r * e.weight >= 0) by (nonlinear_arith)
                requires
                    r >= 0,
                    e.weight >= 0,
            ;
            vstd::arithmetic::div_mod::lemma_div_is_ordered(0, r * e.weight, total_weight(es));
            if k < d.len() {
                assert(d[k] == idx[k]);
            }
        }
    }
}

/// A weighted round that gives out nothing leaves every entry as it was.
proof fn lemma_no_gain(es: Seq<Entry>, r: int)
    requires
        r >= 0,
        distributed(es, r) == 0,
    ensures
        weighted_step(es, r) == es,
{
    let pidx = pending_indices(es);
    lemma_pending(es);
    if pidx.len() > 0 {
        lemma_weight_sum_prefix(es, pidx, 1);
        lemma_weight_sum_step(es, pidx, 0);
        assert(pidx.take(0) =~= Seq::<int>::empty());
        lemma_gain_terms(es, r, pidx);
        assert forall|j: int| 0 <= j < es.len() && room_of(es[j]) > 0 implies weighted_gain(
            es,
            r,
            es[j],
        ) == 0 by {
            assert(pidx[rank(es, j)] == j);
        }
    } else {
        assert forall|j: int| 0 <= j < es.len() implies room_of(es[j]) <= 0 by {
            if room_of(es[j]) > 0 {
                assert(rank(es, j) < pidx.len());
            }
        }
    }
    assert(weighted_step(es, r) =~= es);
}

/// Shares out the cells left after the entries' current lengths, in rounds.
fn grow_flexible_entries(entries: &mut Vec<Entry>, available: u16)
    ensures
        final(entries)@ == grow(old(entries)@, initial_remaining(old(entries)@, available)),
{
    let mut remaining: u16 = remaining_length(available, entries);
    let ghost target = grow(entries@, remaining as nat);
    while remaining > 0
        invariant
            grow(entries@, remaining as nat) == target,
        ensures
            entries@ == target,
        decreases remaining,
    {
        let pending = flexible_indices(entries);
        if pending.len() == 0 {
            break;
        }
        let ghost es = entries@;
        let ghost r = remaining;
        proof {
            assert(as_indices(pending@) =~= pending_indices(es));
            lemma_weighted_bridge(es, r as int);
        }
        let given: u16 = distribute_weighted(entries, remaining, &pending);
        proof {
            if total_weight(es) > 0 {
                assert(entries@ =~= weighted_step(es, r as int));
            }
            lemma_weight_sum_nonneg(es, pending_indices(es));
            assert(given == distributed(es, r as int));
        }
        if given > 0 {
            remaining -= given;
            continue;
        }
        proof {
            lemma_no_gain(es, r as int);
            lemma_remainder_bridge(es, r as int);
        }
        let any_given = distribute_remainder(entries, &mut remaining, &pending);
        proof {
            let pidx = pending_indices(es);
            assert forall|j: int| 0 <= j < es.len() implies #[trigger] entries@[j]
                == remainder_step(es, r as int)[j] by {
                if pidx.contains(j) {
                    let k = choose|k: int| 0 <= k < pidx.len() && pidx[k] == j;
                    assert(entries@[pidx[k]] == remainder_step(es, r as int)[pidx[k]]);
                }
            }
            assert(entries@ =~= remainder_step(es, r as int));
            assert(room_of(es[pidx[0]]) > 0);
        }
        if !any_given {
            break;
        }
    }
}


/// Resolves the constraints into one length per constraint, in order, that together fit in
/// `available` cells.
pub fn resolve_lengths(available: u16, constraints: &[LengthConstraint]) -> (lengths: Vec<u16>)
    ensures
        lengths@ == resolved(available, constraints@),
        lengths@.len() == constraints@.len(),
        sum_of(lengths@) <= available,
{
    proof {
        lemma_resolved_fits(available, constraints@);
    }
    let mut entries: Vec<Entry> = Vec::new();
    let mut i: usize = 0;
    while i < constraints.len()
        invariant
            0 <= i <= constraints.len(),
            entries@.len() == i,
            forall|j: int| 0 <= j < i ==> #[trigger] entries@[j] == entry_of(constraints@[j]),
        decreases constraints.len() - i,
    {
        entries.push(Entry::new(constraints[i]));
        i += 1;
    }
    assert(entries@ =~= entries_of(constraints@));
    grow_flexible_entries(&mut entries, available);
    let ghost grown = lengths_of(entries@);
    let mut lengths: Vec<u16> = Vec::new();
    let mut remaining: u16 = available;
    let mut i: usize = 0;
    while i < entries.len()
        invariant
            0 <= i <= entries.len(),
            grown == lengths_of(entries@),
            lengths@ == clip(grown.take(i as int), available),
            remaining == available - sum_of(lengths@),
        decreases entries.len() - i,
    {
        proof {
            assert(grown.take(i + 1).drop_last() =~= grown.take(i as int));
            assert(lengths@.push(0).drop_last() =~= lengths@);
        }
        let entry_length: u16 = entries[i].length;
        let length: u16 = if entry_length <= remaining { entry_length } else { remaining };
        proof {
            assert(lengths@.push(length).drop_last() =~= lengths@);
        }
        remaining -= length;
        lengths.push(length);
        i += 1;
    }
    assert(grown.take(entries.len() as int) =~= grown);
    lengths
}


spec fn index_sum(idx: Seq<int>, f: spec_fn(int) -> int) -> int
    decreases idx.len(),
{
    if idx.len() == 0 {
        0
    } else {
        index_sum(idx.drop_last(), f) + f(idx.last())
    }
}

proof fn lemma_index_sum_step(idx: Seq<int>, f: spec_fn(int) -> int, k: int)
    requires
        0 <= k < idx.len(),
    ensures
        index_sum(idx.take(k + 1), f) == index_sum(idx.take(k), f) + f(idx[k]),
{
    assert(idx.take(k + 1).drop_last() =~= idx.take(k));
}

proof fn lemma_gain_sum_is_index_sum(es: Seq<Entry>, r: int, idx: Seq<int>)
    ensures
        gain_sum(es, r, idx) == index_sum(idx, |i: int| weighted_gain(es, r, es[i])),
    decreases idx.len(),
{
    if idx.len() > 0 {
        lemma_gain_sum_is_index_sum(es, r, idx.drop_last());
    }
}

spec fn pointwise_increase(es: Seq<Entry>, fs: Seq<Entry>, inc: spec_fn(int) -> int) -> bool {
    &&& fs.len() == es.len()
    &&& forall|i: int|
        0 <= i < es.len() ==> #[trigger] fs[i].length == es[i].length + (if room_of(es[i]) > 0 {
            inc(i)
        } else {
            0
        })
}

proof fn lemma_pointwise_prefix(es: Seq<Entry>, fs: Seq<Entry>, inc: spec_fn(int) -> int, n: int)
    requires
        pointwise_increase(es, fs, inc),
        0 <= n <= es.len(),
    ensures
        sum_lengths(fs.take(n)) == sum_lengths(es.take(n)) + index_sum(
            pending_indices(es).take(rank(es, n)),
            inc,
        ),
    decreases n,
{
    let pidx = pending_indices(es);
    lemma_pending(es);
    if n == 0 {
        assert(fs.take(0) =~= Seq::<Entry>::empty());
        assert(es.take(0) =~= Seq::<Entry>::empty());
        assert(es.take(0) =~= es.take(0).take(0));
        assert(pidx.take(0) =~= Seq::<int>::empty());
    } else {
        let m = n - 1;
        lemma_pointwise_prefix(es, fs, inc, m);
        lemma_sum_lengths_take(es, m);
        lemma_sum_lengths_take(fs, m);
        assert(rank(es, m + 1) == rank(es, m) + (if room_of(es[m]) > 0 {
            1int
        } else {
            0int
        }));
        assert(0 <= rank(es, m) <= pidx.len());
        if room_of(es[m]) > 0 {
            assert(pidx[rank(es, m)] == m);
            lemma_index_sum_step(pidx, inc, rank(es, m));
        }
    }
}

/// Summing a pointwise increase of the growable entries.
proof fn lemma_pointwise_sum(es: Seq<Entry>, fs: Seq<Entry>, inc: spec_fn(int) -> int)
    requires
        pointwise_increase(es, fs, inc),
    ensures
        sum_lengths(fs) == sum_lengths(es) + index_sum(pending_indices(es), inc),
{
    let pidx = pending_indices(es);
    lemma_pending(es);
    lemma_pointwise_prefix(es, fs, inc, es.len() as int);
    assert(fs.take(es.len() as int) =~= fs);
    assert(es.take(es.len() as int) =~= es);
    assert(pidx.take(pidx.len() as int) =~= pidx);
}


/// The largest length an entry can reach.
spec fn cap_of(e: Entry) -> int {
    if e.weight == 0 {
        e.length as int
    } else {
        match e.maximum {
            None => u16::MAX as int,
            Some(m) => if m >= e.length { m as int } else { e.length as int },
        }
    }
}

/// What a round of growth keeps of every entry.
spec fn grown_from(es: Seq<Entry>, fs: Seq<Entry>) -> bool {
    &&& fs.len() == es.len()
    &&& forall|i: int|
        0 <= i < es.len() ==> {
            &&& #[trigger] fs[i].weight == es[i].weight
            &&& fs[i].maximum == es[i].maximum
            &&& fs[i].length >= es[i].length
            &&& cap_of(fs[i]) == cap_of(es[i])
            &&& (room_of(es[i]) == 0 ==> fs[i] == es[i])
        }
}

proof fn lemma_elem_le_sum(es: Seq<Entry>, i: int)
    requires
        0 <= i < es.len(),
    ensures
        es[i].length <= sum_lengths(es),
    decreases es.len(),
{
    lemma_sum_lengths_nonneg(es.drop_last());
    if i < es.len() - 1 {
        lemma_elem_le_sum(es.drop_last(), i);
    }
}

proof fn lemma_grown_from_trans(es: Seq<Entry>, fs: Seq<Entry>, gs: Seq<Entry>)
    requires
        grown_from(es, fs),
        grown_from(fs, gs),
    ensures
        grown_from(es, gs),
{
    assert forall|i: int| 0 <= i < es.len() implies {
        &&& #[trigger] gs[i].weight == es[i].weight
        &&& gs[i].maximum == es[i].maximum
        &&& gs[i].length >= es[i].length
        &&& cap_of(gs[i]) == cap_of(es[i])
        &&& (room_of(es[i]) == 0 ==> gs[i] == es[i])
    } by {
        assert(fs[i].weight == es[i].weight);
        assert(gs[i].weight == fs[i].weight);
    }
}

proof fn lemma_grown_from_refl(es: Seq<Entry>)
    ensures
        grown_from(es, es),
{
}

/// A weighted round, started with `sum + remaining == available`, overflows nothing and gives
/// out exactly `distributed` cells.
proof fn lemma_weighted_step(es: Seq<Entry>, r: int, a: int)
    requires
        r > 0,
        pending_indices(es).len() > 0,
        sum_lengths(es) + r == a,
        a <= u16::MAX,
        distributed(es, r) <= r,
    ensures
        sum_lengths(weighted_step(es, r)) == sum_lengths(es) + distributed(es, r),
        grown_from(es, weighted_step(es, r)),
        forall|i: int|
            0 <= i < es.len() && room_of(es[i]) > 0 ==> #[trigger] weighted_step(es, r)[i].length
                == es[i].length + weighted_gain(es, r, es[i]),
{
    let pidx = pending_indices(es);
    let w = weighted_step(es, r);
    let inc = |i: int| weighted_gain(es, r, es[i]);
    lemma_pending(es);
    lemma_weight_sum_prefix(es, pidx, 1);
    lemma_weight_sum_step(es, pidx, 0);
    assert(pidx.take(0) =~= Seq::<int>::empty());
    lemma_gain_terms(es, r, pidx);
    lemma_gain_sum_is_index_sum(es, r, pidx);
    assert forall|i: int| 0 <= i < es.len() implies #[trigger] w[i].length == es[i].length + (if room_of(
        es[i],
    ) > 0 {
        inc(i)
    } else {
        0
    }) by {
        if room_of(es[i]) > 0 {
            assert(pidx[rank(es, i)] == i);
            lemma_elem_le_sum(es, i);
        }
    }
    lemma_pointwise_sum(es, w, inc);
    assert forall|i: int| 0 <= i < es.len() implies {
        &&& #[trigger] w[i].weight == es[i].weight
        &&& w[i].maximum == es[i].maximum
        &&& w[i].length >= es[i].length
        &&& cap_of(w[i]) == cap_of(es[i])
        &&& (room_of(es[i]) == 0 ==> w[i] == es[i])
    } by {
        if room_of(es[i]) > 0 {
            assert(pidx[rank(es, i)] == i);
            lemma_elem_le_sum(es, i);
        }
    }
}

proof fn lemma_count_below(es: Seq<Entry>, r: int, m: int)
    requires
        0 <= m <= pending_indices(es).len(),
        r >= 0,
    ensures
        index_sum(
            pending_indices(es).take(m),
            |i: int|
                if rank(es, i) < r {
                    1int
                } else {
                    0int
                },
        ) == min_int(m, r),
    decreases m,
{
    let pidx = pending_indices(es);
    let inc = |i: int|
        if rank(es, i) < r {
            1int
        } else {
            0int
        };
    if m == 0 {
        assert(pidx.take(0) =~= Seq::<int>::empty());
    } else {
        lemma_count_below(es, r, m - 1);
        lemma_index_sum_step(pidx, inc, m - 1);
        lemma_pending(es);
        assert(rank(es, pidx[m - 1]) == m - 1);
    }
}

/// A round of single cells, started with `sum + remaining == available`, overflows nothing and
/// gives out one cell to each of the first `remaining` growable entries.
proof fn lemma_remainder_step(es: Seq<Entry>, r: int, a: int)
    requires
        r > 0,
        sum_lengths(es) + r == a,
        a <= u16::MAX,
    ensures
        sum_lengths(remainder_step(es, r)) == sum_lengths(es) + min_int(
            r,
            pending_indices(es).len() as int,
        ),
        grown_from(es, remainder_step(es, r)),
{
    let pidx = pending_indices(es);
    let w = remainder_step(es, r);
    let inc = |i: int|
        if rank(es, i) < r {
            1int
        } else {
            0int
        };
    lemma_pending(es);
    assert forall|i: int| 0 <= i < es.len() implies #[trigger] w[i].length == es[i].length + (if room_of(
        es[i],
    ) > 0 {
        inc(i)
    } else {
        0
    }) by {
        lemma_elem_le_sum(es, i);
    }
    lemma_pointwise_sum(es, w, inc);
    lemma_count_below(es, r, pidx.len() as int);
    assert(pidx.take(pidx.len() as int) =~= pidx);
    assert forall|i: int| 0 <= i < es.len() implies {
        &&& #[trigger] w[i].weight == es[i].weight
        &&& w[i].maximum == es[i].maximum
        &&& w[i].length >= es[i].length
        &&& cap_of(w[i]) == cap_of(es[i])
        &&& (room_of(es[i]) == 0 ==> w[i] == es[i])
    } by {
        lemma_elem_le_sum(es, i);
    }
}


/// Growth keeps every entry's weight, maximum and cap, never shrinks an entry, and ends with all
/// the space used or no entry able to grow.
proof fn lemma_grow(es: Seq<Entry>, r: nat, a: int)
    requires
        r > 0 ==> sum_lengths(es) + r == a,
        a <= u16::MAX,
    ensures
        grown_from(es, grow(es, r)),
        r == 0 ==> grow(es, r) == es,
        r > 0 ==> sum_lengths(grow(es, r)) <= a,
        r > 0 ==> sum_lengths(grow(es, r)) == a || forall|i: int|
            0 <= i < es.len() ==> room_of(#[trigger] grow(es, r)[i]) == 0,
    decreases r,
{
    let pc = pending_indices(es).len() as int;
    lemma_grown_from_refl(es);
    if r == 0 {
    } else if pc == 0 {
        lemma_pending(es);
        assert forall|i: int| 0 <= i < es.len() implies room_of(#[trigger] grow(es, r)[i]) == 0 by {
            if room_of(es[i]) > 0 {
                assert(rank(es, i) < pc);
            }
        }
    } else {
        let d = distributed(es, r as int);
        if 0 < d && d <= r {
            let w = weighted_step(es, r as int);
            lemma_weighted_step(es, r as int, a);
            let r2 = (r - d) as nat;
            lemma_grow(w, r2, a);
            lemma_grown_from_trans(es, w, grow(w, r2));
        } else {
            let given = min_int(r as int, pc);
            let w = remainder_step(es, r as int);
            lemma_remainder_step(es, r as int, a);
            let r2 = (r - given) as nat;
            lemma_grow(w, r2, a);
            lemma_grown_from_trans(es, w, grow(w, r2));
        }
    }
}


pub(crate) proof fn lemma_sum_of_nonneg(s: Seq<u16>)
    ensures
        sum_of(s) >= 0,
    decreases s.len(),
{
    if s.len() > 0 {
        lemma_sum_of_nonneg(s.drop_last());
    }
}

proof fn lemma_sum_of_lengths(es: Seq<Entry>)
    ensures
        sum_of(lengths_of(es)) == sum_lengths(es),
    decreases es.len(),
{
    if es.len() > 0 {
        assert(lengths_of(es).drop_last() =~= lengths_of(es.drop_last()));
        lemma_sum_of_lengths(es.drop_last());
    }
}

proof fn lemma_requested(cs: Seq<LengthConstraint>)
    ensures
        sum_lengths(entries_of(cs)) == requested(cs),
        entries_of(cs).len() == cs.len(),
        forall|i: int|
            0 <= i < cs.len() ==> {
                &&& #[trigger] entries_of(cs)[i] == entry_of(cs[i])
                &&& entry_of(cs[i]).length == base_length(cs[i])
                &&& cap_of(entry_of(cs[i])) == upper_bound(cs[i])
            },
{
    assert(lengths_of(entries_of(cs)) =~= cs.map_values(|c: LengthConstraint| base_length(c)));
    lemma_sum_of_lengths(entries_of(cs));
}

/// Clipping keeps the length, never grows a length, uses `min(sum, available)` cells and is
/// the identity on lengths that already fit.
proof fn lemma_clip(s: Seq<u16>, a: u16)
    ensures
        clip(s, a).len() == s.len(),
        sum_of(clip(s, a)) == min_int(sum_of(s), a as int),
        forall|i: int| 0 <= i < s.len() ==> #[trigger] clip(s, a)[i] <= s[i],
        forall|i: int|
            0 <= i < s.len() ==> #[trigger] clip(s, a)[i] == min_int(
                s[i] as int,
                a - sum_of(clip(s, a).take(i)),
            ),
        sum_of(s) <= a ==> clip(s, a) == s,
    decreases s.len(),
{
    let c = clip(s, a);
    if s.len() == 0 {
    } else {
        let d = s.drop_last();
        let p = clip(d, a);
        lemma_clip(d, a);
        lemma_sum_of_nonneg(d);
        assert(c.drop_last() =~= p);
        assert forall|i: int| 0 <= i < s.len() implies #[trigger] c[i] == min_int(
            s[i] as int,
            a - sum_of(c.take(i)),
        ) by {
            if i < s.len() - 1 {
                assert(c.take(i) =~= p.take(i));
            } else {
                assert(c.take(i) =~= p);
            }
        }
        if sum_of(s) <= a {
            assert(c =~= s);
        }
    }
}

/// Every constraint gets exactly one length, and the lengths together fit in the available
/// length.
pub proof fn lemma_resolved_fits(available: u16, cs: Seq<LengthConstraint>)
    ensures
        resolved(available, cs).len() == cs.len(),
        sum_of(resolved(available, cs)) <= available,
{
    let base = entries_of(cs);
    let g = grow(base, initial_remaining(base, available));
    lemma_requested(cs);
    lemma_grow(base, initial_remaining(base, available), available as int);
    lemma_clip(lengths_of(g), available);
}

/// No item is given more than the upper bound of its constraint: a fixed length, the minimum of
/// a weightless item, or the larger of minimum and maximum of a capped flexible item.
pub proof fn lemma_resolved_within_bounds(available: u16, cs: Seq<LengthConstraint>)
    ensures
        forall|i: int|
            0 <= i < cs.len() ==> #[trigger] resolved(available, cs)[i] <= upper_bound(cs[i]),
{
    let base = entries_of(cs);
    let g = grow(base, initial_remaining(base, available));
    lemma_requested(cs);
    lemma_grow(base, initial_remaining(base, available), available as int);
    lemma_clip(lengths_of(g), available);
    assert forall|i: int| 0 <= i < cs.len() implies #[trigger] resolved(available, cs)[i]
        <= upper_bound(cs[i]) by {
        assert(base[i] == entry_of(cs[i]));
        assert(cap_of(g[i]) == cap_of(base[i]));
    }
}

proof fn lemma_resolved_when_requests_fit(available: u16, cs: Seq<LengthConstraint>)
    requires
        requested(cs) <= available,
    ensures
        ({
            let base = entries_of(cs);
            let g = grow(base, initial_remaining(base, available));
            &&& resolved(available, cs) == lengths_of(g)
            &&& grown_from(base, g)
            &&& sum_lengths(g) == available || forall|i: int|
                0 <= i < cs.len() ==> room_of(#[trigger] g[i]) == 0
        }),
{
    let base = entries_of(cs);
    let r = initial_remaining(base, available);
    let g = grow(base, r);
    lemma_requested(cs);
    lemma_grow(base, r, available as int);
    lemma_sum_of_lengths(g);
    lemma_clip(lengths_of(g), available);
}

/// When the requests fit, every item gets at least what it asks for, and a fixed item gets
/// exactly its length: fixed lengths and minimums are reserved first.
pub proof fn lemma_resolved_reserves_requests(available: u16, cs: Seq<LengthConstraint>)
    requires
        requested(cs) <= available,
    ensures
        forall|i: int|
            0 <= i < cs.len() ==> base_length(cs[i]) <= #[trigger] resolved(available, cs)[i],
        forall|i: int|
            0 <= i < cs.len() && cs[i] is Fixed ==> #[trigger] resolved(available, cs)[i]
                == base_length(cs[i]),
{
    let base = entries_of(cs);
    let g = grow(base, initial_remaining(base, available));
    lemma_requested(cs);
    lemma_resolved_when_requests_fit(available, cs);
    assert forall|i: int| 0 <= i < cs.len() implies base_length(cs[i]) <= #[trigger] resolved(
        available,
        cs,
    )[i] by {
        assert(base[i] == entry_of(cs[i]));
        assert(g[i].weight == base[i].weight);
        assert(g[i].length >= base[i].length);
    }
    assert forall|i: int| 0 <= i < cs.len() && cs[i] is Fixed implies #[trigger] resolved(
        available,
        cs,
    )[i] == base_length(cs[i]) by {
        assert(base[i] == entry_of(cs[i]));
        assert(room_of(base[i]) == 0);
        assert(g[i].weight == base[i].weight);
    }
}

/// When the requests fit, the space is used up unless no item can grow any further.
pub proof fn lemma_resolved_uses_space(available: u16, cs: Seq<LengthConstraint>)
    requires
        requested(cs) <= available,
    ensures
        sum_of(resolved(available, cs)) == available || forall|i: int|
            0 <= i < cs.len() ==> is_saturated(cs[i], #[trigger] resolved(available, cs)[i] as int),
{
    let base = entries_of(cs);
    let g = grow(base, initial_remaining(base, available));
    lemma_requested(cs);
    lemma_resolved_when_requests_fit(available, cs);
    lemma_sum_of_lengths(g);
    if sum_lengths(g) != available {
        assert forall|i: int| 0 <= i < cs.len() implies is_saturated(
            cs[i],
            #[trigger] resolved(available, cs)[i] as int,
        ) by {
            assert(base[i] == entry_of(cs[i]));
            assert(room_of(g[i]) == 0);
            assert(g[i].weight == base[i].weight);
        }
    }
}

/// When the requests fit and some flexible item has no maximum, all the space is used.
pub proof fn lemma_uncapped_item_fills(available: u16, cs: Seq<LengthConstraint>, i: int)
    requires
        requested(cs) <= available,
        0 <= i < cs.len(),
        cs[i] matches LengthConstraint::Flexible { weight, maximum: None, .. } && weight > 0,
    ensures
        sum_of(resolved(available, cs)) == available,
{
    lemma_resolved_uses_space(available, cs);
    assert(!is_saturated(cs[i], resolved(available, cs)[i] as int));
}

/// When the requests do not fit, nothing grows and the requested lengths are clipped in order:
/// each item gets what it asks for or what is left, so later items are clipped or omitted.
pub proof fn lemma_resolved_clips_in_order(available: u16, cs: Seq<LengthConstraint>)
    requires
        requested(cs) >= available,
    ensures
        sum_of(resolved(available, cs)) == available,
        forall|i: int|
            0 <= i < cs.len() ==> {
                let left = available - sum_of(resolved(available, cs).take(i));
                #[trigger] resolved(available, cs)[i] == if base_length(cs[i]) <= left {
                    base_length(cs[i]) as int
                } else {
                    left
                }
            },
{
    let base = entries_of(cs);
    lemma_requested(cs);
    assert(initial_remaining(base, available) == 0);
    let g = grow(base, 0);
    assert(g == base);
    lemma_sum_of_lengths(base);
    lemma_clip(lengths_of(base), available);
    assert forall|i: int| 0 <= i < cs.len() implies {
        let left = available - sum_of(resolved(available, cs).take(i));
        #[trigger] resolved(available, cs)[i] == if base_length(cs[i]) <= left {
            base_length(cs[i]) as int
        } else {
            left
        }
    } by {
        assert(base[i] == entry_of(cs[i]));
    }
}

proof fn lemma_sum_of_zeros(s: Seq<u16>)
    requires
        forall|i: int| 0 <= i < s.len() ==> s[i] == 0,
    ensures
        sum_of(s) == 0,
    decreases s.len(),
{
    if s.len() > 0 {
        lemma_sum_of_zeros(s.drop_last());
    }
}

/// The sum of lengths that are `v + 1` before position `m` and `v` from there on.
proof fn lemma_sum_of_two_levels(s: Seq<u16>, v: int, m: int)
    requires
        0 <= m <= s.len(),
        forall|i: int| 0 <= i < s.len() ==> s[i] == if i < m { v + 1 } else { v },
    ensures
        sum_of(s) == s.len() * v + m,
    decreases s.len(),
{
    if s.len() > 0 {
        let n = s.len() - 1;
        let m2 = if m <= n { m } else { n };
        lemma_sum_of_two_levels(s.drop_last(), v, m2);
        assert(n * v + v == s.len() * v) by (nonlinear_arith)
            requires
                n == s.len() - 1,
        ;
    }
}

/// The first position from `i` on that holds `v`, or the last position.
spec fn first_at(s: Seq<u16>, v: int, i: int) -> int
    decreases s.len() - i,
{
    if i >= s.len() - 1 || s[i] == v {
        i
    } else {
        first_at(s, v, i + 1)
    }
}

proof fn lemma_first_at(s: Seq<u16>, v: int, i: int)
    requires
        0 <= i < s.len(),
        s[s.len() - 1] == v,
    ensures
        i <= first_at(s, v, i) < s.len(),
        s[first_at(s, v, i)] == v,
        forall|k: int| i <= k < first_at(s, v, i) ==> s[k] != v,
    decreases s.len() - i,
{
    if !(i >= s.len() - 1 || s[i] == v) {
        lemma_first_at(s, v, i + 1);
    }
}

/// Items that all have the same uncapped flexible constraint with no minimum split the space
/// evenly: each gets `available / n` cells, and the `available % n` cells left over go one each
/// to the first items.
pub proof fn lemma_equal_items_split_evenly(available: u16, cs: Seq<LengthConstraint>, w: u16)
    requires
        cs.len() >= 1,
        w > 0,
        forall|i: int|
            0 <= i < cs.len() ==> cs[i] == (LengthConstraint::Flexible {
                minimum: 0,
                weight: w,
                maximum: None,
            }),
    ensures
        forall|i: int|
            0 <= i < cs.len() ==> #[trigger] resolved(available, cs)[i] == (available as int) / (
            cs.len() as int) + (if i < (available as int) % (cs.len() as int) {
                1int
            } else {
                0int
            }),
{
    let n = cs.len() as int;
    let r = resolved(available, cs);
    lemma_sum_of_zeros(cs.map_values(|c: LengthConstraint| base_length(c)));
    lemma_resolved_fits(available, cs);
    lemma_uncapped_item_fills(available, cs, 0);
    let v = r[n - 1] as int;
    assert forall|i: int, j: int| 0 <= i < j < n implies r[i] == r[j] || r[i] == r[j] + 1 by {
        lemma_equal_items_share_equally(available, cs, i, j);
    }
    lemma_first_at(r, v, 0);
    let m = first_at(r, v, 0);
    assert forall|i: int| 0 <= i < n implies r[i] == if i < m { v + 1 } else { v } by {
        if i < n - 1 {
            assert(r[i] == r[n - 1] || r[i] == r[n - 1] + 1);
        }
        if m < i {
            assert(r[m] == r[i] || r[m] == r[i] + 1);
        }
    }
    lemma_sum_of_two_levels(r, v, m);
    assert(available == v * n + m) by (nonlinear_arith)
        requires
            available == n * v + m,
    ;
    vstd::arithmetic::div_mod::lemma_fundamental_div_mod_converse(available as int, n, v, m);
}

proof fn lemma_weight_sum_drop_last(es: Seq<Entry>, idx: Seq<int>)
    requires
        es.len() > 0,
        forall|k: int| 0 <= k < idx.len() ==> 0 <= #[trigger] idx[k] < es.len() - 1,
    ensures
        weight_sum(es, idx) == weight_sum(es.drop_last(), idx),
    decreases idx.len(),
{
    if idx.len() > 0 {
        let d = idx.drop_last();
        assert forall|k: int| 0 <= k < d.len() implies 0 <= #[trigger] d[k] < es.len() - 1 by {
            assert(d[k] == idx[k]);
        }
        lemma_weight_sum_drop_last(es, d);
    }
}

/// The entries of the constraints: an entry can grow exactly when its constraint can, with the
/// same room and weight, and the growable weights add up to `growable_weight`.
proof fn lemma_growable_weight(cs: Seq<LengthConstraint>)
    ensures
        total_weight(entries_of(cs)) == growable_weight(cs),
        forall|i: int|
            0 <= i < cs.len() ==> {
                &&& (room_of(#[trigger] entry_of(cs[i])) > 0 <==> can_grow(cs[i]))
                &&& room_of(entry_of(cs[i])) == growth_room(cs[i])
                &&& can_grow(cs[i]) ==> entry_of(cs[i]).weight == growth_weight(cs[i])
            },
    decreases cs.len(),
{
    let es = entries_of(cs);
    if cs.len() > 0 {
        let d = cs.drop_last();
        lemma_growable_weight(d);
        assert(es.drop_last() =~= entries_of(d));
        lemma_pending(entries_of(d));
        let q = pending_indices(entries_of(d));
        lemma_weight_sum_drop_last(es, q);
        let n = es.len() - 1;
        assert(es[n] == entry_of(cs.last()));
        if room_of(es.last()) > 0 {
            assert(q.push(n).drop_last() =~= q);
        }
    }
}

/// Every item that can grow gets at least its weighted share of the space that the requests
/// leave, capped by how far it can grow: shares go by weight, rounded down.
pub proof fn lemma_resolved_weighted_share(available: u16, cs: Seq<LengthConstraint>, i: int)
    requires
        requested(cs) <= available,
        0 <= i < cs.len(),
        can_grow(cs[i]),
    ensures
        ({
            let share = (available - requested(cs)) * growth_weight(cs[i]) / growable_weight(cs);
            let room = growth_room(cs[i]);
            resolved(available, cs)[i] >= base_length(cs[i]) + if share <= room {
                share
            } else {
                room
            }
        }),
{
    let base = entries_of(cs);
    let r0 = initial_remaining(base, available);
    let g = grow(base, r0);
    lemma_requested(cs);
    lemma_growable_weight(cs);
    lemma_resolved_when_requests_fit(available, cs);
    lemma_pending(base);
    assert(base[i] == entry_of(cs[i]));
    assert(room_of(base[i]) > 0);
    let pidx = pending_indices(base);
    assert(pidx[rank(base, i)] == i);
    let share = (available - requested(cs)) * growth_weight(cs[i]) / growable_weight(cs);
    lemma_weight_sum_prefix(base, pidx, rank(base, i) + 1);
    lemma_weight_sum_prefix(base, pidx, rank(base, i));
    lemma_weight_sum_step(base, pidx, rank(base, i));
    assert(total_weight(base) > 0);
    assert(g[i].weight == base[i].weight);
    if r0 == 0 {
        assert(share == 0) by {
            assert(growth_weight(cs[i]) * 0 == 0);
        }
    } else {
        let r = r0 as int;
        lemma_weighted_bridge(base, r);
        lemma_gain_terms(base, r, pidx);
        let d = distributed(base, r);
        assert(weighted_gain(base, r, base[i]) <= d);
        if d > 0 {
            let w = weighted_step(base, r);
            lemma_weighted_step(base, r, available as int);
            lemma_grow(w, (r0 - d) as nat, available as int);
            assert(w[i].length == base[i].length + weighted_gain(base, r, base[i]));
            assert(g == grow(w, (r0 - d) as nat));
            assert(g[i].weight == w[i].weight);
        }
    }
}

proof fn lemma_rank_mono(es: Seq<Entry>, i: int, j: int)
    requires
        0 <= i <= j <= es.len(),
    ensures
        rank(es, i) <= rank(es, j),
    decreases j - i,
{
    if i < j {
        lemma_pending(es);
        let k = j - 1;
        lemma_rank_mono(es, i, k);
        assert(rank(es, k + 1) == rank(es, k) + (if room_of(es[k]) > 0 {
            1int
        } else {
            0int
        }));
    }
}

/// Two uncapped entries of the same weight that start equal end equal, or the earlier one a
/// single cell ahead.
proof fn lemma_grow_equal(es: Seq<Entry>, r: nat, a: int, i: int, j: int)
    requires
        r > 0 ==> sum_lengths(es) + r == a,
        a <= u16::MAX,
        0 <= i < j < es.len(),
        es[i] == es[j],
        es[i].weight > 0,
        es[i].maximum is None,
    ensures
        grow(es, r)[i].length == grow(es, r)[j].length || grow(es, r)[i].length == grow(
            es,
            r,
        )[j].length + 1,
    decreases r,
{
    let pc = pending_indices(es).len() as int;
    if r == 0 || pc == 0 {
    } else {
        let d = distributed(es, r as int);
        if 0 < d && d <= r {
            let w = weighted_step(es, r as int);
            lemma_weighted_step(es, r as int, a);
            let r2 = (r - d) as nat;
            assert(w[i] == w[j]);
            if r2 > 0 {
                lemma_grow_equal(w, r2, a, i, j);
            }
        } else {
            let given = min_int(r as int, pc);
            let w = remainder_step(es, r as int);
            lemma_remainder_step(es, r as int, a);
            let r2 = (r - given) as nat;
            lemma_pending(es);
            lemma_rank_mono(es, i + 1, j);
            assert(rank(es, i + 1) == rank(es, i) + 1);
            if r >= pc {
                assert(rank(es, j) < pc);
                assert(w[i] == w[j]);
                if r2 > 0 {
                    lemma_grow_equal(w, r2, a, i, j);
                }
            }
        }
    }
}

/// Two items with the same uncapped flexible constraint get the same length, or the earlier one
/// a single cell more, when the requests fit: equal weights get equal shares.
pub proof fn lemma_equal_items_share_equally(
    available: u16,
    cs: Seq<LengthConstraint>,
    i: int,
    j: int,
)
    requires
        requested(cs) <= available,
        0 <= i < j < cs.len(),
        cs[i] == cs[j],
        cs[i] matches LengthConstraint::Flexible { weight, maximum: None, .. } && weight > 0,
    ensures
        resolved(available, cs)[i] == resolved(available, cs)[j] || resolved(available, cs)[i]
            == resolved(available, cs)[j] + 1,
{
    let base = entries_of(cs);
    let r = initial_remaining(base, available);
    lemma_requested(cs);
    lemma_resolved_when_requests_fit(available, cs);
    assert(base[i] == entry_of(cs[i]) && base[j] == entry_of(cs[j]));
    lemma_grow_equal(base, r, available as int, i, j);
}

} // verus!
