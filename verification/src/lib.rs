//! Aggregation of weather-station temperature readings: a byte-level parser
//! for `<station>;<temperature>` rows and an open-addressing table that keeps
//! the minimum, maximum, sum and count of the readings of every station.
pub mod chunks;
pub mod order;
pub mod process;
pub mod readings;
pub mod stats;
pub mod table;
