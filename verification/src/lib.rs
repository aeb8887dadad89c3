//! Extraction of significant hits from the text report of a sequence-alignment
//! search, with per-query statistics and selection of the best queries.
//!
//! A report is text. [`segment`] cuts it into per-query blocks of raw rows,
//! [`decode`] reads the fields of a row, [`stats`] removes repeated queries
//! and computes the extremes of each query, [`select`] picks the best
//! queries and their best hits, and [`order`] sorts queries by a statistic.
//! [`inline`] reads the dialect in which each alignment carries its own
//! score line, and [`report`] reads whole reports of either dialect.
//! [`text`] and [`number`] hold the byte-level reading, and
//! [`measure`] the numbers, which are kept as bit patterns and only ever
//! compared. [`render`] states what reading does on every report of the
//! written form.

pub mod decode;
pub mod inline;
pub mod measure;
pub mod number;
pub mod order;
pub mod render;
pub mod report;
pub mod segment;
pub mod select;
pub mod stats;
pub mod text;
