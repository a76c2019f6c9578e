# ghostwriter

A handwriting diary for reMarkable tablets: write on the page, rest the pen, and
the diary answers below. This crate holds the decisions behind it as verified
Verus code; the devices, files and clocks are in `app/`.

- `src/binary32.rs`, `src/rounding.rs`: single-precision arithmetic on integers,
  and how it rounds
- `src/device.rs`, `src/event.rs`: the tablets, their input events, and plans of
  events and pauses
- `src/touch.rs`, `src/mapping.rs`: the trigger corner, touches and the toolbar,
  and what the coordinate maps keep
- `src/gesture.rs`: the idle trigger
- `src/scroll.rs`, `src/ink.rs`: scrolling the page and measuring how far it went
- `src/notebook.rs`: which document was opened last
- `src/cursive/text.rs`: text that a Latin-1 font can render
- `src/experiment.rs`: the commands of the experiment tool
- `app/`: the program around it; it brings its own screen capture, pen driver,
  SVG renderer and touch simulator
