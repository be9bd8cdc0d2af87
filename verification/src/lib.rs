//! Discovery of a USB cellular modem in a sysfs-like device tree.
//!
//! The library walks a directory tree for the directories that hold a
//! marker entry, asks a property source about each of them, and matches
//! the reported `KEY=VALUE` blocks against vendor and model identifiers to
//! find the modem's serial ports.
//!
//! It reads no directory and runs no command itself: [`sysfssearch`] says
//! what it needs next and is handed the result, so that every decision of
//! the search is made here and proved, for every tree and every answer of
//! the property source.
//!
//! - [`text`]: substring search on character sequences.
//! - [`parser`]: one key's value in a property block.
//! - [`matcher`]: blocks selected by criteria, and a target key's values.
//! - [`aggregate`]: values read as numbers, their minimum and count.
//! - [`pathfinder`]: the depth-bounded walk and the filter chain.
//! - [`sysfssearch`]: the engine that runs one search per session.
//! - [`simcom`]: the search for a SIMCom modem.
//! - [`usbdev`], [`utils`]: property keys, and the property source's
//!   report.
//! - [`seqs`]: shared facts about sequences.

pub mod seqs;
pub mod text;
pub mod parser;
pub mod matcher;
pub mod aggregate;
pub mod pathfinder;
pub mod utils;
pub mod sysfssearch;
pub mod usbdev;
pub mod simcom;
