//! Rule evaluation, configuration text handling and scan bookkeeping for a
//! process power-throttling controller.

pub mod ancestry;
pub mod names;
pub mod process;
pub mod rule;
pub mod scan;
pub mod task;
pub mod text;
pub mod roundtrip;
