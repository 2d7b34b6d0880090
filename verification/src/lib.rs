//! Restartable trip journal for mapped corporate tails.

pub mod adsbx;
pub mod airports;
pub mod cache;
pub mod calendar;
pub mod collapse;
pub mod collect;
pub mod collector;
pub mod double;
pub mod fleet;
pub mod ingest;
pub mod json;
pub mod live;
pub mod opensky;
pub mod opensky_client;
pub mod opensky_probe;
pub mod order;
pub mod report;
pub mod run_laws;
pub mod segment;
pub mod sets;
pub mod store;
pub mod table;
pub mod text;
pub mod watch;

pub use airports::AirportIndex;
pub use collapse::collapse_near_duplicate_flights;
pub use collect::{CollectOptions, CollectReport};
pub use fleet::{query_fleet, FleetQuery, FleetRow};
pub use ingest::ingest_opensky_flights;
pub use store::{JournalDb, TripRow, TripSource};
