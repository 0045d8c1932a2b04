# utui

`utui` is a small immediate-mode terminal UI library. This crate holds its verified core,
written in Verus:

- `src/area.rs`: rectangular terminal areas.
- `src/context.rs`: the rendering context (writer, area and state) handed to widgets; a context
  keeps its area and state over any sequence of calls, and derived contexts share the state.
- `src/layout.rs`: resolution of fixed, minimum, weighted and capped length constraints along
  one axis, with its laws (the lengths fit, bounds are kept, requests are reserved first, the
  space is used up unless nothing can grow, each growable item gets at least its weighted share,
  overcommitted requests are clipped in order, equal items split the space evenly).
- `src/widgets/`: the layout decisions of the widgets: stacked areas, the visible items of a
  scrolled list, the shown text of a single-line widget, and the frame of a spinner.

`app/` drives the terminal with `crossterm`: terminal setup and restoration, the `Tui`
renderer, and the `Stack`, `Scroll`, `Text` and `Spinner` widget traits, which ask the core
where to draw and then call the application's callbacks.
