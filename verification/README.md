# kraken_rs

An automated typing tool: it types text into the focused window the way a
person would (set speed, self-corrected typos, pauses after characters that
open completion pop-ups, smart indentation for web IDEs), and Escape stops it
at once.

- `src/` is the verified library (Verus). A typing session is planned there as
  a sequence of steps (`plan::plan_typing`) whose properties are proved in
  `plan_laws`: in basic mode the keys typed spell the text exactly, every plain
  character is typed right after a cancel check, every completion trigger is
  followed by its pause, and every progress figure counts the keystrokes made.
  The library also holds the text analysis, progress bookkeeping, human-like
  keystrokes, Escape suppression, window selection and ordering, training
  bookkeeping, and the snippet store (a map from name to text).
- `app/` is the program around it: the GUI (eframe), key injection (enigo),
  the global Escape listener (rdev), X11 window queries (x11rb) and the saved
  configuration (serde, directories). It carries out the library's plan step
  by step and feeds the library the values it reads.
- `tests/` exercises the library on concrete inputs.
