//! Region-read overlap counting and aggregation for aligned sequencing data.
//!
//! Given genomic regions, a filter configuration and a stream of alignment
//! records (position, CIGAR operations, optional tags), the library decides
//! which records count toward which region, aggregates counts per region
//! (bulk) or per region and cell barcode (single-cell), and serializes the
//! result deterministically as a flat table or a sparse coordinate matrix.
//!
//! All text the engine handles (chromosome names, barcodes, output artifacts)
//! is modelled as byte strings, whose lexicographic order coincides with the
//! order of the corresponding Rust strings.

pub mod bed;
pub mod bytes;
pub mod encode;
pub mod engine;
pub mod filter;
pub mod laws;
pub mod model;
pub mod overlap;
pub mod sort;
pub mod table;
