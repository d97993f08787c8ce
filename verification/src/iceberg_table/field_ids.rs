//! Iceberg field ids. Numbered from 1 at table creation; never renumbered.

use vstd::prelude::*;

verus! {

pub const SERIES_ID: i32 = 1;

pub const METRIC_NAME: i32 = 2;

pub const LABELS: i32 = 3;

pub const LABELS_KEY: i32 = 4;

pub const LABELS_VALUE: i32 = 5;

pub const SAMPLES_SERIES_ID: i32 = 1;

pub const TIMESTAMP: i32 = 2;

pub const VALUE: i32 = 3;

} // verus!
