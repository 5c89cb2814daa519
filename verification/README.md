# tzmath

Offset arithmetic for civil timestamps, without a timezone database, as a
Verus library: a validating parser for
`YYYY-MM-DDTHH:MM:SS[.fraction]±HH:MM` timestamps, a printer that writes
them back in canonical form, and the conversion and arithmetic between
wall-clock readings and Unix-epoch instants.

Layout:

- `src/calendar.rs`: the proleptic Gregorian calendar, counted year by year
  and month by month, and the closed-form day-count algorithm (Howard
  Hinnant's `days_from_civil` / `civil_from_days`) proved to agree with it.
- `src/offset.rs`: fixed UTC offsets within -12:00..=+14:00.
- `src/datetime.rs`: readings, their instants, parsing and printing.
- `src/duration.rs`: `3h30m`-style durations, read and written.
- `src/message.rs`: the message for each kind of refused input.
- `src/text.rs`: digits, number fields, whitespace, trimming and the one
  std string operation it trusts (`String::push`).
- `src/laws.rs`: what holds across operations (instants survive offset
  changes and additions; printed text parses back; days count one by one;
  durations are sums of their components).
- `src/commands.rs`: the tool's commands (`convert`, `add`, `diff`) on text.
- `src/batch.rs`: the all-or-nothing run over lines of input, as a state
  machine that the caller drives.
- `app/main.rs`: the command-line tool: arguments, stdin and output.
