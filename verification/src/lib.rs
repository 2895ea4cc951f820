//! Tools for Amiga executables: a parser for the hunk format, a loader that lays
//! the hunks out in a model of the Amiga's memory and relocates them, and the
//! decisions of the archive scanner.
pub mod bytes;
pub mod hunk;
pub mod amiga;
pub mod scan;
pub mod musashi;
