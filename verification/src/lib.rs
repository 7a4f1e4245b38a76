//! Parallel chunked aggregation engine: computes, for every distinct key in a
//! delimited byte region, the minimum, mean and maximum of the associated
//! values. Values are exact fixed-point numbers in tenths; the mean of a key is
//! carried exactly as the pair (sum, count), so every aggregation law holds
//! bit-for-bit regardless of chunking, worker count or merge order.

pub mod agg;
pub mod engine;
pub mod parse;
pub mod splitter;
pub mod stats;

pub use agg::Aggregate;
pub use engine::process_chunk;
pub use engine::run;
pub use parse::MalformedRecordError;
pub use parse::Measurement;
pub use parse::parse_line;
pub use splitter::Chunk;
pub use splitter::SplitReader;
pub use stats::CityInfo;
