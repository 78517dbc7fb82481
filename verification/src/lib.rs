//! Puts ZIP archives back together from a memory image whose pages have lost
//! their order, using the archives' own headers as clues.
//!
//! The image is cut into pages and the pages go into a pool (`pool`). Every
//! end of central directory record found in the image (`scan`, `parser`)
//! gives the skeleton of an archive: a list of slots for pages, all of them
//! holes at first but the one of the record (`skeleton`). The central
//! directory headers of the image are clustered, one cluster for each
//! skeleton (`analysis`); the pages of a cluster's headers, and the pages of
//! the local file headers that they announce, move from the pool into the
//! slots (`recovery`), no page into two (`ownership`). A skeleton is
//! rendered by writing its pages one after the other, zeros for each hole.
//!
//! Measuring the distances by which headers are clustered is left to the
//! caller: the library gives each header's place as whole numbers and takes
//! groups of headers back.

pub mod analysis;
pub mod bytes;
pub mod calendar;
pub mod chunks;
pub mod ownership;
pub mod parser;
pub mod pool;
pub mod recovery;
pub mod roundtrip;
pub mod scan;
pub mod skeleton;
