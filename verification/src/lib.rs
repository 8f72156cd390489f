//! Core engine of a desktop deskbar launcher: descriptor parsing, catalog
//! construction, categorization, ranked search, and launch-command
//! sanitization. All text is handled as byte sequences; the surrounding
//! application performs the filesystem and process work.

pub mod bytes;
pub mod catalog;
pub mod parser;
pub mod scan;
pub mod launch;
pub mod search;
pub mod category;
