//! Timing of a command and of the tree of processes and threads it starts.
//!
//! A tracer follows every fork, clone, exec and exit below a command. The
//! [`tracker`] turns these events into a tree of spans, one span per thread
//! and per command that a thread runs; [`model`] says what each event makes
//! of the tree, and [`laws`] what holds whatever the events are. When the
//! command has ended the tree is rolled up ([`aggregate`]), folded into a
//! tree of commands ([`command`], [`groups`], [`names`]), and rendered
//! ([`rows`], [`table`], [`report`]). [`conservation`] shows that nothing is
//! lost on the way. [`driver`] holds the decisions of the event loop; the
//! loop itself, with the system calls, belongs to the program around this
//! library.

pub mod aggregate;
pub mod command;
pub mod conservation;
pub mod driver;
pub mod groups;
pub mod laws;
pub mod model;
pub mod names;
pub mod paint;
pub mod procfs;
pub mod report;
pub mod rows;
pub mod span;
pub mod status;
pub mod table;
pub mod text;
pub mod tracker;
pub mod usage;
