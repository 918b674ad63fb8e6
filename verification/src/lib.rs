//! Histograms of newline-delimited JSON records by their `type` field.
//!
//! A run cuts its input into chunks of whole lines, counts the records of
//! each chunk by type, and merges the counts into one report.

pub mod accounting;
pub mod chunker;
pub mod error;
pub mod json;
pub mod lines;
pub mod pipeline;
pub mod pool;
pub mod processor;
pub mod reducer;
pub mod report;
pub mod statistics;
pub mod table;
pub mod text;

pub use crate::chunker::{Chunker, CHUNK_SIZE};
pub use crate::error::CruncherError;
pub use crate::lines::LINE_DELIMITER;
pub use crate::pipeline::{crunch, crunch_in_chunks, crunch_with};
pub use crate::pool::{number_of_processors, processors_for, MAX_NUMBER_IN_FLIGHT_CHUNKS};
pub use crate::processor::{count_record, ChunkProcessor, SerdeChunkProcessor};
pub use crate::reducer::reduce;
pub use crate::report::Report;
pub use crate::statistics::Statistics;
