//! Decision core of a keystroke-driven application launcher.
//!
//! A [`catalog::Catalog`] holds the launchable entries of a session, unique by
//! launch command. [`ranking::rank`] derives the ranked view of the catalog for
//! a query, [`navigation::NavState`] keeps the query and the cursor over that
//! view and reacts to key events, and [`launch`] resolves the focused entry to
//! the program and arguments to start.

pub mod catalog;
pub mod launch;
pub mod navigation;
pub mod ranking;
pub mod scoring;
