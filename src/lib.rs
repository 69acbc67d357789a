//! Annual events resolved to concrete dates and published as an iCalendar document.
pub mod date;
pub mod event;
pub mod uid;
pub mod catalog;
pub mod calendar;
pub mod parse;
