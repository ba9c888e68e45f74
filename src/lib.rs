//! A genetic-algorithm heuristic for the travelling salesman problem.
//!
//! Tours are permutations of dense city identifiers; their cost is read from an
//! integer distance table. Populations of tours evolve by ranking, crossover and
//! mutation, and independently evolved populations are merged once per era.
mod cities;
mod distance;
mod random;

pub mod config;
pub mod creature;
pub mod population;
pub mod ranking;
pub mod tour;

pub use cities::CityTable;
pub use config::{apply_overrides, config_for_cpus, configure, default_config, Config, ConfigError, InMode, Overrides, MIN_POPULATION};
pub use creature::{Creature, UNREACHABLE};
pub use distance::DistanceMap;
pub use population::{breed_from_pop, dedup_tours, evolve, fresh_group, gather, merge_era, next_generation, sort_pop_objectively};
pub use random::worker_rng;
