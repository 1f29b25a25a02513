//! How the application names itself: never like a poker client, so that
//! discovery never mistakes its own windows for a table.
use vstd::prelude::*;

verus! {

pub const APP_ID: &'static str = "table-arranger-control";

pub const PANEL_TITLE: &'static str = "Table Arranger Control";

pub const PRODUCT_NAME: &'static str = "Table Arranger Control";

} // verus!
