# ranwhen

ranwhen shows in the terminal when a machine was running: it reads the boot records that
`last -R -F reboot` prints (or, on macOS, display and power activity), merges them into time
spans, lays them over the half hours of each day and draws a calendar of daily bars, a summary
and a histogram over the hours of the day.

The library under `src/` is verified with Verus:

- `clock` – date-times as seconds (instants as milliseconds), and the calls into chrono that
  read, write and inspect them;
- `span` – spans, their stable ordering and their merging;
- `text` – decimal numbers, padding and searching in text;
- `pattern` – regular expressions, through the `regex` crate;
- `lastlog` – reading boot records into spans;
- `slots` – running time per half hour, per half hour of the day, and in all, to the
  millisecond;
- `render` and `report` – the styled text of the report;
- `sessions` – macOS activity sessions: reading, pairing, merging and writing them back;
- `cli` – the command line and where the records come from.

`app/` holds the program around it: arguments, files, commands, the clock and the terminal.
