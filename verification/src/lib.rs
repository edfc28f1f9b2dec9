//! Cheapest item builds: a catalog of purchasable items is filtered and
//! projected into decision records, an integer program over them is
//! formulated for a solver, and the solver's answer is checked and reported.

pub mod text;
pub mod ddragon;
pub mod items;
pub mod optimizer;
pub mod report;
