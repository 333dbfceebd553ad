use vstd::prelude::*;

pub mod api;
pub mod config;
pub mod loader;
pub mod names;
pub mod nrtm;
pub mod prefix;
pub mod rpsl;
pub mod store;
pub mod text;

verus! {

} // verus!
