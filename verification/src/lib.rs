//! A verified core for a goal scheduler: time arithmetic on naive timestamps,
//! slots and timelines, hour intervals, time filters, calendar days and the
//! step/task placement rules.

pub mod time;
pub mod budget;
pub mod calendar;
pub mod date;
pub mod day;
pub mod day_filter;
pub mod filter;
pub mod goal;
pub mod interval;
pub mod new_filter;
pub mod options_generator;
pub mod output;
pub mod output_formatter;
pub mod placer;
pub mod preprocess;
pub mod slot;
pub mod slot_assignment;
pub mod sorting;
pub mod splitters;
pub mod step;
pub mod step_generator;
pub mod step_ids;
pub mod steps_sorting;
pub mod task;
pub mod timeline;
pub mod timeline_filter;
pub mod timing;

