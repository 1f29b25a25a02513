# Table Arranger Control

A Windows companion that arranges ClubGG and LDPlayer poker table windows in
columns on a chosen display, parks tables that are switched off, and places
ordinary application windows at the top-right corner or in the space left
beside the tables. A small control panel mirrors the workspace; global
hotkeys, a tray icon and a random-number overlay complete it.

## Layout

- `src/` — the library, verified with Verus. It holds every decision the
  program makes: window recognition, the poker column layout, slot
  assignment and preservation, moves and swaps, parking, application
  placement, the controller's reaction to each command, its timers, the
  panel's texts, the overlay's settings and the icons. Contracts state the
  results over spec functions; the `law_*` proof functions state properties
  that span several functions.
- `tests/` — tests of the library on concrete values, including scenarios
  of the controller driven by a simulated desktop.
- `app/` — the Windows program around the library: the Win32 desktop
  backend, the controller thread with its clock, the configuration file, the
  egui panel, global hotkeys, the tray icon, the overlay window and logging.
