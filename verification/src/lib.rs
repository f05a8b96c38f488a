//! Scanning, recognising and renaming media files: file names are read as
//! movies (`title + year`) or episodes (`SxxEyy`, `NxM`), rendered through a
//! naming template, and turned into a rename plan.
pub mod paths;
pub mod text;
pub mod parser;
pub mod template;
pub mod cli;
pub mod matcher;
pub mod planner;
