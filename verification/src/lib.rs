use vstd::prelude::*;

pub mod text;
pub mod number;
pub mod schema;
pub mod kml;
pub mod paths;
pub mod mission;
pub mod pick;
pub mod wind;
pub mod parse;
pub mod store;
pub mod rocketpy;
pub mod risk;
pub mod boats;
pub mod registry;
pub mod datetime;
pub mod restore;
pub mod simulate;

verus! {

} // verus!
