//! The logic of a dashboard for class calendars.
//!
//! A calendar is a file in the iCalendar format. The library finds out where the text of a
//! calendar is to be had (`load`, `data_uri`, `source`, `directory`, `path`), reads it (`ics`),
//! follows weekly rules (`recurrence`), places wall-clock times in time zones (`zone`, `time`)
//! and brings the events in order (`event`). The dashboard shows the class in progress and the
//! next one (`event`, `display`), the school week and the ranges of time in which calendars
//! differ (`timeline`), in the time that the machine's clocks show (`local`). What the user has
//! chosen stands in `settings`, and when calendars are loaded in `refresh`. Texts, numbers and
//! ordered lists are dealt with in `text`, `number` and `order`.
pub mod data_uri;
pub mod directory;
pub mod display;
pub mod event;
pub mod ics;
pub mod load;
pub mod local;
pub mod number;
pub mod order;
pub mod path;
pub mod recurrence;
pub mod refresh;
pub mod settings;
pub mod source;
pub mod text;
pub mod time;
pub mod timeline;
pub mod zone;
