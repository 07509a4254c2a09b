# croniter

Cron expressions (`0 9 * * 1-5` is "9am on weekdays") parsed into their
field values, and the next and previous fire times computed from them:
`L`, `W`, `#`/`l`, hashed `H`/`R` fields, `?`, seconds and year columns,
ranges of fire times between two bounds, matching an instant against an
expression, and time zones with daylight-saving transitions.

The library in `src/` is written in Verus; every function in it is verified
against its `requires`/`ensures`. `app/` is the command-line program around
it: it reads the arguments and the clock, calls `cli::run`, and prints what
comes back.

## Layout

| module | what it holds |
|---|---|
| `consts`, `item`, `datetime` | field indices and ranges, the `Item` of an expanded field, wall-clock readings and their instants |
| `token`, `text`, `expand`, `hash` | reading an expression: tokens, aliases, `H`/`R` hashing (CRC-32), and the expansion into sorted value lists |
| `reldelta` | the relative-date arithmetic the search steps with |
| `calc`, `skip` | the next/previous search and what each of its steps passes over |
| `api` | the cursor (`CronIterator`) and the `WallClock` seam, with a clock for naive and fixed-offset time |
| `tz` | a clock for IANA time zones (through chrono-tz) |
| `range`, `matcher` | fire times between two bounds; matching and validity |
| `cli` | the commands `next`, `prev`, `range`, `match`, `validate`, `bench`, as text in and text out |

## What is proved

Without a time zone, each step of the cursor returns a reading the
expression fires at, strictly beyond the cursor's reading in the direction
of travel, with nothing firing in between; when it fails, nothing fires
within the window of years searched. Stepping back after stepping forward
from a fire time returns to it. A range yields, in order, every fire time
up to its bound while the window reaches it. A match at a reading on the
expression's grid, with the default tolerance, is whether the expression
fires there. With a time zone, each result is a fire time pinned onto the
timeline by the clock's resolution of transitions.

Calls into chrono and chrono-tz stand behind small trusted wrappers whose
contracts say what those crates compute.
