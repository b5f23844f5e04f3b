pub mod annotated;
pub mod chunked_genome;
pub mod counts;
pub mod interner;
pub mod intervals;
pub mod matcher;
pub mod output;
pub mod region_index;
pub mod worker;

pub use intervals::merged_interval_length;
