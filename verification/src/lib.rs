//! The Red Republic simulation: the parts of it that are pure decision and
//! arithmetic, with what each of them does stated and proved.

pub mod building;
pub mod citizen;
pub mod climate;
pub mod command;
pub mod crews;
pub mod director;
pub mod contract;
pub mod fleet;
pub mod founding;
pub mod geology;
pub mod ground;
pub mod journey;
pub mod loan;
pub mod mapgen;
pub mod migration;
pub mod network;
pub mod policy;
pub mod resource;
pub mod rng;
pub mod roadworks;
pub mod scenario;
pub mod shifts;
pub mod text;
pub mod trade;
pub mod units;
pub mod utility;
