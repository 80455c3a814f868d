//! A test-harness engine for language implementations.
//!
//! A source file carries its own test: a specification, embedded in its
//! comments, that names the commands to run on the file and says what is
//! expected of each.
//!
//! ```text
//! Compiler:
//!   status: success
//!   stderr:
//!     warning: unused variable: `x`
//!       ...unused_var.rs:12:9
//!       ...
//!
//! Run-time:
//!   status: success
//!   stdout: Hello world
//! ```
//!
//! A command label stands on a line of its own, with a colon; the keys
//! `extra-args`, `status`, `stdout` and `stderr` follow below it, indented. A
//! value may go on over the lines below its key that are indented by more
//! than the key. `status` is `success`, `error`, `signal` or an exit code.
//! In `stdout` and `stderr`, `...` on a line of its own stands for any number
//! of lines, `...` at the start of a line for any start of that line, and
//! `...` at its end for any end. The line `ignore:` marks a file to be
//! skipped.
//!
//! The crate holds the three parts on which the rest hangs, each with its
//! contract:
//!
//! - [`parser`] turns the text of a specification into a
//!   [`expectation::TestSpecification`], or says what is wrong with it;
//! - [`matcher`] decides whether captured lines are what a sequence of
//!   [`pattern::PatternLine`] expects;
//! - [`runner`] takes a file through its commands: which one runs next, how
//!   what it did is judged, when the run stops, and how the files of a whole
//!   run are counted.
//!
//! [`canon`] writes a specification as text again. [`roundtrip`] and
//! [`tidiness`] prove that the parser reads that text back as the
//! specification. [`text`], [`case`] and [`number`] hold what these are stated
//! in: whitespace, lines, lower case and decimal numbers.
//!
//! Finding the files, starting the processes and printing the results are left
//! to the caller.

pub mod canon;
pub mod case;
pub mod expectation;
pub mod matcher;
pub mod number;
pub mod parser;
pub mod pattern;
pub mod roundtrip;
pub mod runner;
pub mod text;
pub mod tidiness;
