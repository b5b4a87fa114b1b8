# mostr

An immutable nested collaborative task manager, powered by nostr, with a verified core.

- `src/` is the library. It holds what the task manager knows and does: events, tasks and their
  states, time tracking, filters, the grammar of commands and what each command does, and what is
  shown. Every function has a contract that Verus proves.
- `app/` is the program around it: relays, the keychain, files, the line editor, and the progress of
  tasks, which is averaged in floating point.
- `tests/` runs the library together with the crates that it calls.

## Model

Each type has a view made of sequences and numbers. `RelayView` is all that is known of a relay;
what a command does is a function on it, `RelayView::executed`. A function that reads the clock comes
in two forms: one that takes the time as an argument, and one that reads it. Where the time zone of
the machine matters as well, what was found of it is an argument of a function with an exact
contract, such as `choose_hour`, `choose_stamp` or `format_timestamp_at`.

Laws, such as that moving is read back, that a pending event is not lost or that undoing takes back
what is pending, are public proof
functions beside the functions they speak of.

## What is trusted

Calls into other crates stand in small functions marked `external_body`, whose doc comments say what
is believed of them: reading of nostr keys, ids and addresses, signing of events and checking of
signatures, the clock and the time zone, dates in plain language, date formats, colours, regular
expressions.
