use utui::layout::{resolve_lengths, LengthConstraint};

fn fixed(length: u16) -> LengthConstraint {
    LengthConstraint::fixed(length)
}

fn fill(weight: u16) -> LengthConstraint {
    LengthConstraint::flexible(0, weight, None)
}

#[test]
fn preserves_an_entry_for_every_constraint() {
    assert_eq!(
        resolve_lengths(3, &[fixed(0), fixed(1), fixed(0), fixed(2)]),
        [0, 1, 0, 2]
    );
    assert_eq!(resolve_lengths(1, &[fixed(0), fixed(2), fixed(3)]), [0, 1, 0]);
}

#[test]
fn distributes_fills_by_weight() {
    assert_eq!(resolve_lengths(6, &[fill(1), fill(2)]), [2, 4]);
    assert_eq!(resolve_lengths(1, &[fill(1), fill(1)]), [1, 0]);
}

#[test]
fn redistributes_space_after_a_maximum_is_reached() {
    let capped = LengthConstraint::flexible(0, 1, Some(2));
    assert_eq!(resolve_lengths(6, &[capped, fill(1)]), [2, 4]);
}

#[test]
fn grows_minimum_constraints_after_reserving_the_minimum() {
    let minimum = LengthConstraint::flexible(2, 1, None);
    assert_eq!(resolve_lengths(6, &[minimum, fill(1)]), [4, 2]);
}

#[test]
fn resolved_lengths_never_exceed_the_available_length() {
    for available in 0..=32 {
        for fixed_length in 0..=32 {
            for maximum in 0..=32 {
                let resolved = resolve_lengths(
                    available,
                    &[
                        fixed(fixed_length),
                        fill(1),
                        LengthConstraint::flexible(0, 1, Some(maximum)),
                    ],
                );

                assert_eq!(resolved.len(), 3);
                assert!(resolved.iter().copied().sum::<u16>() <= available);
                assert!(resolved[2] <= maximum);
            }
        }
    }
}

#[test]
fn an_uncapped_flexible_entry_uses_all_remaining_space() {
    for available in 0..=64 {
        for reserved in 0..=available {
            let resolved = resolve_lengths(available, &[fixed(reserved), fill(1)]);
            assert_eq!(resolved, [reserved, available - reserved]);
        }
    }
}

#[test]
fn a_weightless_flexible_constraint_is_fixed() {
    assert_eq!(
        LengthConstraint::flexible(3, 0, Some(9)),
        LengthConstraint::Fixed(3)
    );
    assert_eq!(
        LengthConstraint::flexible(3, 2, Some(9)),
        LengthConstraint::Flexible { minimum: 3, weight: 2, maximum: Some(9) }
    );
    assert_eq!(resolve_lengths(10, &[LengthConstraint::flexible(3, 0, None), fill(1)]), [3, 7]);
}

#[test]
fn overcommitted_requests_are_clipped_in_order() {
    assert_eq!(resolve_lengths(5, &[fixed(3), fixed(4), fixed(2)]), [3, 2, 0]);
    let minimum = LengthConstraint::flexible(4, 1, None);
    assert_eq!(resolve_lengths(6, &[minimum, fixed(4), fill(3)]), [4, 2, 0]);
}

#[test]
fn single_cells_go_to_the_first_growable_entries() {
    assert_eq!(resolve_lengths(5, &[fill(1), fill(1), fill(1)]), [2, 2, 1]);
    assert_eq!(resolve_lengths(2, &[fixed(0), fill(1), fill(1), fill(1)]), [0, 1, 1, 0]);
}

#[test]
fn a_minimum_above_the_maximum_is_kept() {
    let stuck = LengthConstraint::flexible(5, 1, Some(2));
    assert_eq!(resolve_lengths(10, &[stuck, fill(1)]), [5, 5]);
}

#[test]
fn capped_entries_leave_space_unused() {
    let capped = LengthConstraint::flexible(0, 1, Some(3));
    assert_eq!(resolve_lengths(10, &[capped, fixed(2)]), [3, 2]);
}

#[test]
fn weighted_shares_round_down_then_fill_in_order() {
    assert_eq!(resolve_lengths(10, &[fill(1), fill(2)]), [4, 6]);
    assert_eq!(resolve_lengths(7, &[fill(3), fill(3), fill(1)]), [3, 3, 1]);
    assert_eq!(resolve_lengths(0, &[fill(1), fixed(3)]), [0, 0]);
    assert_eq!(resolve_lengths(u16::MAX, &[fill(1), fill(1)]), [32768, 32767]);
}

#[test]
fn no_constraints_resolve_to_no_lengths() {
    assert_eq!(resolve_lengths(10, &[]), Vec::<u16>::new());
}

#[test]
fn equal_constraints_get_equal_shares() {
    assert_eq!(resolve_lengths(7, &[fill(2), fill(2), fill(2)]), [3, 2, 2]);
    assert_eq!(resolve_lengths(9, &[fill(2), fixed(3), fill(2)]), [3, 3, 3]);
}

#[test]
fn each_growable_item_gets_at_least_its_weighted_share() {
    let resolved = resolve_lengths(11, &[fill(1), fill(2), fill(3)]);
    assert_eq!(resolved, [2, 3, 6]);
    assert!(resolved[0] >= 11 / 6 && resolved[1] >= 11 * 2 / 6 && resolved[2] >= 11 * 3 / 6);
}

#[test]
fn equal_items_split_the_space_evenly() {
    for count in 1..=6usize {
        for available in 0..=40u16 {
            let items = vec![fill(2); count];
            let resolved = resolve_lengths(available, &items);
            for (i, length) in resolved.iter().enumerate() {
                let extra = if i < available as usize % count { 1 } else { 0 };
                assert_eq!(*length as usize, available as usize / count + extra);
            }
        }
    }
}
