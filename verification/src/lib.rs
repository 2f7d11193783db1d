//! Verified core of a manga library browser: discovering series and chapters
//! under a two-layout directory root, ordering them with natural-lexical
//! comparison, and projecting each page image onto a monotonic, byte-sortable
//! name that concatenates chapter index and page number.

pub mod dirs;
pub mod lexord;
pub mod natord;
pub mod scan;
pub mod seriesgetter;
