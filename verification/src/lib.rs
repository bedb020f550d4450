//! Indexed random access to FASTA sequence files.
//!
//! The library holds the index of a FASTA file, turns base coordinates
//! into byte ranges of the file, and decodes the bytes read from such a range.
//! It performs no input or output itself: a caller reads the bytes that a
//! request names and hands them back.

pub mod contig;
pub mod error;
pub mod fai;
pub mod fasta;
pub mod file;
pub mod layout;
pub mod parser;
pub mod text;

pub use contig::{Answer, ByteRange, Contig, ContigSource, Fetch, FileContig, MemoryContig, Source};
pub use error::{Error, Result};
pub use fai::{FaiEntry, FaiIndex, FaiRecord};
pub use fasta::{
    complement_base, finish_mmap, finish_read, Fasta, IndexLookup, ReverseComplement,
};
pub use parser::parse_fai_line;
pub use text::decode;
