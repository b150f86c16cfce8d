# warpd-rs

A modal, keyboard-driven virtual pointer for Wayland compositors of the wlroots
family (Sway, Hyprland and others), with its decisions proved in Verus.

- `src/` is the verified library. It decides what each key press, pointer event
  and output event comes to; it never talks to the compositor.
- `app/` is the program around it: Wayland, drawing, the keymap, the
  configuration file.
- `tests/` runs the library on concrete values.

## Modes

- **Hint mode** labels targets on the monitor. Typing narrows them down, and the
  pointer goes to the centre of the one that remains. Targets are a regular
  grid, rectangles from standard input (`wxh+x+y`, one per line), or contours
  found in a picture of the monitor.
- **Grid mode** narrows the monitor quadrant by quadrant.
- **Normal mode** moves a cursor while direction keys are held.

## Numbers

The arithmetic is that of double precision, written with integers: `double.rs`
says what rounding to 53 significant bits is, and `number.rs` has the numbers
with their sums, products and quotients. Grid selections, the cursor of normal
mode and the fractional settings are such numbers. Positions that come from the
compositor or go to it are coordinates in units of 2^-52 pixel (`fixed.rs`).

## Modules

| module | what it holds |
| --- | --- |
| `fixed` | coordinates, integer division, rounding to pixels |
| `double` | rounding to double precision |
| `number` | double-precision numbers and their arithmetic |
| `text` | characters, trimming, decimal numbers |
| `cli` | what the command line asks for |
| `config` | settings, where to find them, colours |
| `input` | key bindings |
| `wayland` | outputs, monitors, seat, pointer focus |
| `pointer` | reading the real pointer, moving the virtual one |
| `areas` | target rectangles and their text form |
| `contours` | choosing targets in a forest of contours |
| `target_detection` | from a captured frame to targets |
| `hint`, `grid` | labels and hints, quadrants |
| `modes`, `normal` | what each key does in each mode |

Each public function states exactly what it returns. What holds across
functions stands in proof functions whose names begin with `law_`.
