//! A terminal directory browser: navigation state, selection marks, directory
//! ordering and the shell quoting used to hand a path to an external editor.
pub mod browser;
pub mod launch;
pub mod listing;
pub mod selection;
pub mod shell_escape;
