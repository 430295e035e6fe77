# zapfast

The logic of the ZapFast WhatsApp desktop client as a Verus-verified library.

- `src/prefetch.rs`: the background history and attachment prefetch worker
  (`State`, a state machine over a plain-value view) and the order in which it
  visits chats (`targets`).
- `src/privacy.rs`: account privacy categories and choices, their wire forms,
  the settings snapshot with optimistic SETs and reverts, and the MEX
  exclusion lists.
- `src/chip_pins.rs`: the chip-pin rows, newest first.
- `src/calendar.rs`: the month calendar of the message-search day filter:
  stepping months, the header label, the Monday-first day grid and day clicks.
- `src/snippet.rs`: the part of a search hit that shows the query, and whether
  the search pane is empty.
- `src/viewer.rs`: the media viewer's title.
- `src/ranking.rs`: the stable newest-first ordering the others share.
- `src/model.rs`, `src/text.rs`: chat data and string helpers.

Where a module has laws, it ends with them: public proof functions that state what holds
across calls.

`app/` holds what talks to the outside: the SQLite archive, the clock, the
WhatsApp wire types and MEX JSON, `jiff` dates and egui geometry.
