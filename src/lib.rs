//! Global pairwise alignment with affine gap penalties, and distance
//! statistics over aligned sequences.
pub mod distance;
pub mod grid;
pub mod needle;

pub use crate::distance::{
    classify, make_stats_table, make_stats_table_aligned, seq_stats, seq_stats_aligned, AlignmentStats, NucleotideType,
    Ratio, SymbolType,
};
pub use crate::grid::{Dir, Grid, Score};
pub use crate::needle::{make_aligner, Aligner, EncodingError, GAP};
