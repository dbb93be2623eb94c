//! Seat apportionment by the D'Hondt highest-averages method, for plain
//! lists of vote totals and for parties grouped into coalitions and
//! coalitions of coalitions.

pub mod allocate;
pub mod apportion;
pub mod distribution;
pub mod error;
pub mod hierarchy;
pub mod hierarchy_laws;
pub mod laws;
pub mod levels;
pub mod parse;
pub mod quotient;
pub mod records;
pub mod report;
pub mod text;
pub mod votes;

pub use allocate::calculate_seats;
pub use apportion::seats;
pub use distribution::SeatDistribution;
pub use error::AllocationError;
pub use parse::parse_coalitions;
pub use quotient::{quotients_dhondts, Quotients};
pub use votes::VoteTable;
