# pureclash

The profile page of a desktop proxy client, split in two:

- `src/` is a library verified with Verus:
  - `calendar`: the proleptic Gregorian calendar counted in days from
    1970-01-01, and `civil_from_days`, proved to return the one valid date
    whose day count is its argument.
  - `date_text`: zero-padded "YYYY-MM-DD" text, and the "last updated" text
    of a profile (none for a timestamp of 0).
  - `profiles`: the rows of the profile list (built-in profile first, the
    inline editor below the profile being edited), the state of each
    profile's row, and the composition of its subtitle.
- `app/` renders the page with gpui and looks up translations with
  rust-i18n, taking every decision from the library.
