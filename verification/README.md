# onagre

A keyboard-driven application launcher for sway. The library (`src/`) holds
the launcher's logic, specified and proved with Verus:

- `mode` – the desktop-entry mode and user-defined modes, by name and label;
- `text` – reading, comparing and matching text character by character;
- `entry` – launcher entries, their order, merging batches of entries and
  ordering by use;
- `table` – a table from modes to values (entries, matches);
- `matching` – which entries are listed for the typed text (fuzzy scores
  from `fuzzy-matcher`), best first;
- `command` – filling the `%` placeholder and splitting command lines
  (`shell-words`);
- `onagre` – the launcher's state and what it does on each message, as a
  specification (`step`) and the code that meets it, with the laws it obeys;
- `backend` – requests and responses of the pop-launcher service;
- `freedesktop` – the `[Desktop Entry]` keys that are read.

`app/` is the program around it: arguments, settings and cache files, the
iced window, starting the chosen program.
