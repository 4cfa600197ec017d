//! Ranked catalog of launchable applications: frecency scores that decay
//! over time, fuzzy ranking, reconciliation after a rescan, a versioned
//! binary encoding of the catalog, the splitting of launch commands, and icon
//! lookup through icon themes.
pub mod entry;
pub mod frecency;
pub mod db;
pub mod rank;
pub mod icon_theme;
pub mod codec;
pub mod runner;
