//! Verified logic of a set of small Unix system-programming tools: a
//! `/etc/shadow` password cracker, a logged-in-user report, a command timer
//! and a process spawner.

pub mod shadow;
pub mod text;
pub mod crack;
pub mod users;
pub mod cli;
pub mod timer_args;
pub mod spawner_args;
pub mod report_args;
pub mod command;
pub mod spawner;
