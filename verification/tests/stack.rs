use utui::widgets::stack::{horizontal_areas, vertical_areas, Constraint};
use utui::Area;

fn describe(areas: &[Option<Area>]) -> String {
    let mut output = String::new();
    for area in areas.iter().flatten() {
        output.push_str(&format!("{}:{}:{}:{};", area.x, area.y, area.w, area.h));
    }
    output
}

#[test]
fn vertical_lays_items_out_from_top_to_bottom() {
    let areas = vertical_areas(
        Area::new(3, 5, 10, 8),
        &[Constraint::Exact(2), Constraint::Fill(1)],
    );
    assert_eq!(describe(&areas), "3:5:10:2;3:7:10:6;");
}

#[test]
fn horizontal_lays_items_out_from_left_to_right() {
    let areas = horizontal_areas(
        Area::new(3, 5, 10, 8),
        &[Constraint::Exact(3), Constraint::Fill(1)],
    );
    assert_eq!(describe(&areas), "3:5:3:8;6:5:7:8;");
}

#[test]
fn zero_sized_entries_do_not_shift_callbacks() {
    let names = ["first", "second"];
    let items = [Constraint::Exact(0), Constraint::Exact(1)];
    let mut output = String::new();
    let area = Area::new(0, 0, 1, 1);
    for areas in [vertical_areas(area, &items), horizontal_areas(area, &items)] {
        for (name, slot) in names.iter().zip(areas) {
            if slot.is_some() {
                output.push_str(name);
            }
        }
    }
    assert_eq!(output, "secondsecond");
}

#[test]
fn an_empty_area_lays_out_nothing() {
    let items = [Constraint::Exact(2), Constraint::Fill(1)];
    assert_eq!(vertical_areas(Area::new(0, 0, 5, 0), &items), [None, None]);
    assert_eq!(horizontal_areas(Area::new(0, 0, 0, 5), &items), [None, None]);
    assert!(vertical_areas(Area::new(0, 0, 5, 5), &[]).is_empty());
}

#[test]
fn min_and_max_constraints_share_the_rest() {
    let areas = vertical_areas(
        Area::new(0, 1, 4, 10),
        &[Constraint::Min(3), Constraint::Max(2), Constraint::Fill(0)],
    );
    assert_eq!(
        areas,
        [Some(Area::new(0, 1, 4, 8)), Some(Area::new(0, 9, 4, 2)), None]
    );
}

#[test]
fn later_items_are_clipped_when_space_runs_out() {
    let areas = horizontal_areas(
        Area::new(10, 0, 5, 1),
        &[Constraint::Exact(3), Constraint::Exact(3), Constraint::Exact(3)],
    );
    assert_eq!(
        areas,
        [Some(Area::new(10, 0, 3, 1)), Some(Area::new(13, 0, 2, 1)), None]
    );
}

#[test]
fn offsets_saturate_at_the_last_cell() {
    let areas = vertical_areas(
        Area::new(0, 65530, 1, 10),
        &[Constraint::Exact(8), Constraint::Exact(2)],
    );
    assert_eq!(
        areas,
        [Some(Area::new(0, 65530, 1, 8)), Some(Area::new(0, 65535, 1, 2))]
    );
}
