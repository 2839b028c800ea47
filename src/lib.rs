//! Discovery of low-complexity regions in nucleotide sequences.
//!
//! A window of a sequence scores `sum ln(c_i!) - t * N` over the counts
//! `c_i` of its `N` k-mers. Scores are fixed-point integers in units of
//! 10^-12, built from a caller-supplied table of logarithms, so that sums
//! are exact and do not depend on the order of the k-mers. For every end
//! position windows grow leftward one k-mer at a time; those that reach the
//! threshold and that no proper prefix or suffix outscores are reported, and
//! the reported windows of a record are merged into maximal intervals.
//!
//! - `kmer`: two-bit k-mer codes and the k-mer index of a sequence.
//! - `score`: the score model and its recomputation from counts.
//! - `counts`: per-window count tables (flat with epochs, or hashed).
//! - `dust`: goodness and the window enumeration.
//! - `lcr`: reported intervals, their order and their merge.
//! - `fasta`: FASTA records and a line reader.
//! - `report`: the per-record TSV block.
//! - `dispatch`: run parameters and the dispatcher's decisions.
pub mod kmer;
pub mod score;
pub mod counts;
pub mod fasta;
pub mod lcr;
pub mod dust;
pub mod report;
pub mod dispatch;
