//! An archetypal entity-component-system world.
//!
//! Entities with the same set of components share one columnar storage, and
//! each set of components is identified by the product of the primes that the
//! registry hands out to its members.
//!
//! - [`prime_key`]: the prime table, archetype keys and the number theory
//!   behind them.
//! - [`data`]: layouts and descriptions of component types.
//! - [`component`]: the registry of component types.
//! - [`blob_vec`]: the column that holds the values of one component.
//! - [`archetype`]: descriptions of archetypes.
//! - [`storage`]: archetype storages and their catalog.
//! - [`entity`]: generational entity handles and their allocator.
//! - [`query`]: queries, filters and the engine that runs them.
//! - [`tag`]: per-entity tag flags.
//! - [`world`]: the world that ties them together.

pub mod archetype;
pub mod blob_vec;
pub mod component;
pub mod data;
pub mod entity;
pub mod prime_key;
pub mod query;
pub mod storage;
pub mod tag;
pub mod world;
