use utui::{scroll_layout, scroll_layout_fits, Area, ScrollDirection, ScrollSlot};

fn layout(area: Area, size: u16, direction: ScrollDirection, len: usize, selected: usize) -> Vec<ScrollSlot> {
    assert!(scroll_layout_fits(area, size, direction, len));
    scroll_layout(area, size, direction, len, selected)
}

fn render(direction: ScrollDirection) -> String {
    let mut output = String::new();
    for slot in layout(Area::new(0, 10, 8, 6), 2, direction, 6, 4) {
        output.push_str(&format!(
            "{}:{}:{}:{};",
            slot.index, slot.selected, slot.area.y, slot.area.h
        ));
    }
    output
}

#[test]
fn keeps_the_selected_item_visible_and_centred() {
    assert_eq!(
        render(ScrollDirection::Forward),
        "3:false:10:2;4:true:12:2;5:false:14:2;"
    );
}

#[test]
fn backward_scrolling_anchors_items_to_the_bottom() {
    assert_eq!(
        render(ScrollDirection::Backward),
        "3:false:14:2;4:true:12:2;5:false:10:2;"
    );
}

#[test]
fn empty_and_zero_sized_scrolls_do_not_render_items() {
    let area = Area::new(0, 0, 8, 6);
    assert!(layout(area, 1, ScrollDirection::Forward, 0, 0).is_empty());
    assert!(layout(area, 0, ScrollDirection::Forward, 3, 0).is_empty());
}

#[test]
fn a_selection_past_the_end_is_clamped_to_the_last_item() {
    let slots = layout(Area::new(2, 0, 5, 9), 3, ScrollDirection::Forward, 10, 99);
    let indices: Vec<usize> = slots.iter().map(|slot| slot.index).collect();
    assert_eq!(indices, [7, 8, 9]);
    let selected: Vec<bool> = slots.iter().map(|slot| slot.selected).collect();
    assert_eq!(selected, [false, false, true]);
    assert_eq!(slots[0].area, Area::new(2, 0, 5, 3));
    assert_eq!(slots[2].area, Area::new(2, 6, 5, 3));
}

#[test]
fn a_selection_near_the_start_keeps_the_first_items() {
    let slots = layout(Area::new(0, 0, 4, 8), 2, ScrollDirection::Forward, 10, 1);
    let indices: Vec<usize> = slots.iter().map(|slot| slot.index).collect();
    assert_eq!(indices, [0, 1, 2, 3]);
    assert!(slots[1].selected);
}

#[test]
fn a_short_list_starts_at_its_first_item() {
    let slots = layout(Area::new(0, 0, 4, 10), 3, ScrollDirection::Backward, 2, 1);
    assert_eq!(slots.len(), 2);
    assert_eq!(slots[0], ScrollSlot { index: 0, selected: false, area: Area::new(0, 7, 4, 3) });
    assert_eq!(slots[1], ScrollSlot { index: 1, selected: true, area: Area::new(0, 4, 4, 3) });
}

#[test]
fn only_complete_items_are_laid_out() {
    let slots = layout(Area::new(0, 0, 4, 7), 3, ScrollDirection::Forward, 10, 0);
    assert_eq!(slots.len(), 2);
    let slots = layout(Area::new(0, 0, 4, 2), 3, ScrollDirection::Forward, 10, 0);
    assert!(slots.is_empty());
}

#[test]
fn rows_past_the_last_terminal_row_do_not_fit() {
    let area = Area::new(0, 65530, 1, 20);
    assert!(!scroll_layout_fits(area, 2, ScrollDirection::Forward, 10));
    assert!(!scroll_layout_fits(area, 2, ScrollDirection::Backward, 10));
    assert!(scroll_layout_fits(area, 2, ScrollDirection::Forward, 3));
    assert!(scroll_layout_fits(area, 2, ScrollDirection::Forward, 0));
    assert!(scroll_layout_fits(area, 0, ScrollDirection::Backward, 10));
}
