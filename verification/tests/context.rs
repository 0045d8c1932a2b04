use std::io::Write;
use utui::{Area, Context};

#[test]
fn a_context_gives_back_its_area_state_and_writer() {
    let mut output: Vec<u8> = Vec::new();
    let state = String::from("state");
    let mut context = Context::new(&mut output, Area::new(1, 2, 3, 4), &state);
    assert_eq!(*context.area(), Area::new(1, 2, 3, 4));
    assert_eq!(context.state(), "state");
    let (writer, area, frame_state) = context.frame();
    writer.write_all(b"hello").unwrap();
    assert_eq!(area, Area::new(1, 2, 3, 4));
    assert_eq!(frame_state, "state");
    assert_eq!(output, b"hello");
}

#[test]
fn a_child_context_shares_writer_and_state_in_its_own_area() {
    let mut output: Vec<u8> = Vec::new();
    let mut context = Context::new(&mut output, Area::new(0, 0, 10, 10), &7u32);
    let seen = context.with_area(Area::new(2, 3, 4, 5), |child: &mut Context<'_, u32, Vec<u8>>| {
        child.frame().0.write_all(b"child").unwrap();
        (*child.area(), *child.state())
    });
    assert_eq!(seen, (Area::new(2, 3, 4, 5), 7));
    assert_eq!(*context.area(), Area::new(0, 0, 10, 10));
    context.frame().0.write_all(b"!").unwrap();
    assert_eq!(output, b"child!");
}

#[test]
fn an_area_from_a_size_starts_at_the_origin() {
    assert_eq!(Area::from((80, 24)), Area::new(0, 0, 80, 24));
    assert_eq!(Area::default(), Area::new(0, 0, 0, 0));
}

#[test]
fn a_context_keeps_its_area_and_state_across_calls() {
    let mut output: Vec<u8> = Vec::new();
    let state = 3u8;
    let mut context = Context::new(&mut output, Area::new(1, 1, 6, 6), &state);
    for step in 0..3u16 {
        context.frame().0.write_all(b".").unwrap();
        let child_state = context.with_area(Area::new(step, 0, 1, 1), |child: &mut Context<'_, u8, Vec<u8>>| {
            let grandchild_state =
                child.with_area(Area::new(0, step, 1, 1), |inner: &mut Context<'_, u8, Vec<u8>>| *inner.state());
            (*child.state(), grandchild_state)
        });
        assert_eq!(child_state, (3, 3));
        assert_eq!(*context.area(), Area::new(1, 1, 6, 6));
        assert!(std::ptr::eq(context.state(), &state));
    }
    assert_eq!(output, b"...");
}
