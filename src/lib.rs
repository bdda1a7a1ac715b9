//! Fastest routes through a metro network with fixed travel times: records are
//! parsed into stations and trips, a search from the departure visits every
//! station, and the predecessors it leaves give the itinerary.
pub mod records;
pub mod network;
pub mod search;
pub mod route;
