# College Cal

A desktop dashboard for ICS class calendars. It shows the class in progress, a live
time-remaining bar, the next class, a weekly schedule, and the ranges of time in which one
calendar is busy while another is free.

- `src/` is the library: reading calendar files, weekly rules, time zones, the sources of
  calendars, loading, the dashboard's texts and the comparison of calendars. Every function states
  what it computes in a contract, and Verus proves it. What the library takes from `chrono`,
  `chrono-tz` and the standard library on trust stands in functions marked
  `#[verifier::external_body]` and, for `String::push`, in an `assume_specification`, each with a
  comment that says what is claimed.
- `tests/` runs the library on concrete values.
- `app/` is the program around it: the window, files, downloads and saved settings.

Select **Calendar** to add one or more calendars. Enter a name, then choose a local `.ics` file or
paste an `https://` or `webcal://` address. Calendars are refreshed every 15 minutes. Any `.ics`
or `.ical` files in the `ics/` directory are added on their own. The first source can also be given
in the environment variable `COLLEGE_CAL_ICS`.

Calendar addresses are effectively private credentials: do not share them.
