# arx_quit

A terminal manager for the running GUI applications of macOS: it lists them, lets the
user filter, sort, group and select them, and quits them gracefully (AppleScript) or by
force (`kill -9`), always after a confirmation and never for a protected application.
A command line offers `ls` and `kill` as well.

## Layout

- `src/` is the verified library, proved with Verus:
  - `app.rs`: the state of the interactive manager, a mathematical model of it
    (`AppView`), and the step function that every key, mouse event and completed piece
    of outside work goes through; the laws about protection, confirmation and the state
    invariant are proved here.
  - `listing.rs`: which applications are shown and in what order (filter, stable sort).
  - `process.rs`: the application record and the text exchanged with AppleScript and
    `ps`.
  - `cli.rs`: what the `ls` and `kill` commands do, as a plan over the listed
    applications.
  - `display.rs`: the texts, rows and wrapping that the screen shows.
  - `layout.rs`: the overlay rectangles, cut out by the toolkit's layout engine.
  - `text.rs`: character-level text functions with exact specifications.
- `app/` is the program around it: the command line, the system calls, the event loop
  and the drawing of widgets. It performs the effects the library asks for and hands
  the results back.
- `tests/` runs the library on concrete values.
