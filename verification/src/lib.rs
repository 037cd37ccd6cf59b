//! Smart top: finds out what is making a computer slow, and names the program
//! responsible.
//!
//! Two readings of the system become metrics (`collect`), metrics become a report
//! (`diagnose`, `blameboard`, `verdict`), and a report becomes a screen (`display`,
//! `panels`, `widgets`) that keys act on (`watch`, `state`, `actions`). Readings,
//! keys, clocks and signals come from outside; everything in between is here, and
//! says in its contracts what it gives for every input.
//!
//! Measurements are numbers in the IEEE 754 formats. They are held by their bit
//! patterns (`float`), with arithmetic that rounds to the nearest (`rounding`) and
//! is printed in decimal (`decimal`). What that gives where it is exact is told in
//! `exact`.

pub mod actions;
pub mod blameboard;
pub mod collect;
pub mod decimal;
pub mod diagnose;
pub mod display;
pub mod exact;
pub mod float;
pub mod layout;
pub mod panels;
pub mod rank;
pub mod rounding;
pub mod state;
pub mod style;
pub mod text;
pub mod verdict;
pub mod watch;
pub mod widgets;
