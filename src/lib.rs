//! Accumulation of daily SNODAS snow rasters into a chunked time × y × x
//! array, with the date axis, chunk-merge rules and file naming that go with it.

pub mod axis;
pub mod calendar;
pub mod chunk;
pub mod convert;
pub mod download;
pub mod extract;
pub mod snodas;
pub mod storage;
pub mod text;
pub mod timeseries;
pub mod zarr_builder;
