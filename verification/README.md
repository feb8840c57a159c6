# zinzen_scheduler

A goal scheduler whose core is verified with Verus. Goals with durations, time
windows, repetitions and filters are turned into steps, the steps are placed on a
calendar in order of flexibility, within the budgets that goals carry, and the result
is handed back as tasks, day by day, with the remaining hours filled by free time.

Times are timestamps (seconds since 1970-01-01T00:00:00, no time zone). Where a
chrono date is converted, the library calls chrono behind a few small trusted
wrappers in `src/date.rs`; step identifiers are drawn with rand in
`src/step_ids.rs`.

## Layout

- `src/` — the verified library. Each public function states its result in its
  `ensures`, over spec functions and views; the laws that relate several functions
  are public proof functions next to them.
  - `time`, `date`, `slot`, `interval`, `timeline`: time arithmetic, slots and
    ordered sets of slots.
  - `timing`, `filter`, `new_filter`, `timeline_filter`, `day_filter`: time filters (hour bounds,
    days of the week, excluded slots).
  - `goal`, `budget`, `preprocess`, `step`, `step_generator`, `splitters`,
    `steps_sorting`, `step_ids`: goals, budgets, and the steps made from them.
  - `placer`, `output`: placing steps and turning them into the day-by-day result.
  - `day`, `calendar`: the hour-by-hour day calendar.
  - `task`, `slot_assignment`, `options_generator`, `output_formatter`: the task
    pipeline that works on one-hour slots.
  - `sorting`: stable sorting by key, used throughout.
- `tests/` — tests run against the compiled library.
- `app/` — JSON input and output with serde, the copies of the library's types that
  carry serde derives, and the driver that checks the library's preconditions before
  calling it.
