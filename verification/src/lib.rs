//! Melate statistics: the draw history, what can be counted in it, and the
//! tickets that eight strategies make of those counts.
pub mod calendar;
pub mod chance;
pub mod combinatorics;
pub mod draw;
pub mod planning;
pub mod pot;
pub mod ranking;
pub mod site;
pub mod sort;
pub mod stats;
pub mod summary;
pub mod text;
pub mod tickets;
