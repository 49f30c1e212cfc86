//! Photometric aggregation engine: one scalar per image of an ordered
//! sequence, computed from decoded pixel buffers.
//!
//! All scalars are exact fixed-point numbers: a value `v` stands for
//! `v / UNIT` (billionths). Each pixel's metric is rounded down to a whole
//! number of billionths, and an image's aggregate is the floor of the mean of
//! those values. Converting to floating point is left to the caller.
pub mod config;
pub mod error;
pub mod metric;
pub mod ordering;
pub mod pixels;
pub mod series;

pub use config::{Config, Source};
pub use error::{EngineError, ItemFailure};
pub use metric::{MetricMode, UNIT};
pub use ordering::{order_entries, FileEntry, OrderKey};
pub use pixels::{Layout, PixelBuffer, Rect, Samples};
pub use series::gather_series;
