//! A directed multigraph of textual cross-references between named entities.
//!
//! Each document in a corpus is named by a label: a prefix character followed
//! by decimal digits. The library interns labels into dense integer handles,
//! scans document text for references to other labels, records each reference
//! as a directed edge, and exports the finished graph both as a compact
//! binary byte stream and as a compressed GraphML document.

pub mod backing;
pub mod codec;
pub mod label;
pub mod render;
pub mod scan;
pub mod store;
