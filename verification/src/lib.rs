//! Verified core of a beacon node's sync, custody, inclusion-list and database logic.
//!
//! Everything here works on plain values: identifiers are integers, roots are [`types::Hash256`],
//! and the large network objects are represented by the few fields the decisions depend on plus a
//! key under which the caller keeps the object itself.
pub mod btree;
pub mod completion_laws;
pub mod custody;
pub mod database_manager;
pub mod descendant_laws;
pub mod encoding;
pub mod fnv_map;
pub mod globals;
pub mod hash;
pub mod inclusion_list_cache;
pub mod inclusion_list_duty;
pub mod inclusion_list_service;
pub mod lineage;
pub mod migration_schema_v24;
pub mod ordered_map;
pub mod persisted_beacon_chain;
pub mod positions;
pub mod strings;
pub mod summaries_dag;
pub mod summaries_dag_laws;
pub mod sync;
pub mod types;
