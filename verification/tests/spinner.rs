use utui::SimpleSpinnerData;

const FRAMES: [&str; 3] = ["a", "b", "c"];

#[test]
fn frames_advance_with_the_interval_and_cycle() {
    let spinner = SimpleSpinnerData::new(&FRAMES, 100);
    assert_eq!(spinner.frame_at(0), "a");
    assert_eq!(spinner.frame_at(99), "a");
    assert_eq!(spinner.frame_at(100), "b");
    assert_eq!(spinner.frame_at(250), "c");
    assert_eq!(spinner.frame_at(350), "a");
    assert_eq!(spinner.frame_at(u128::MAX), FRAMES[((u128::MAX / 100) % 3) as usize]);
}

#[test]
fn the_current_frame_is_one_of_the_frames() {
    let spinner = SimpleSpinnerData::new(&FRAMES, 100);
    assert!(FRAMES.contains(&spinner.frame(&std::time::Instant::now())));
}

#[test]
fn the_animation_starts_at_the_first_frame() {
    let start = std::time::Instant::now();
    let spinner = SimpleSpinnerData::new(&FRAMES, 1_000_000);
    assert_eq!(spinner.frame(&start), "a");
}

#[test]
fn the_animation_repeats_after_a_full_cycle() {
    let spinner = SimpleSpinnerData::new(&FRAMES, 70);
    for elapsed in [0u128, 69, 70, 139, 140, 1000, 123456] {
        assert_eq!(spinner.frame_at(elapsed + 70 * 3), spinner.frame_at(elapsed));
    }
}

#[test]
fn a_spinner_gives_back_its_frames_and_interval() {
    let spinner = SimpleSpinnerData::new(&FRAMES, 40);
    assert_eq!(spinner.chars(), &FRAMES);
    assert_eq!(spinner.interval(), 40);
}
