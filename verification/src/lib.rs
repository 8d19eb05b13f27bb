//! Bounded embedded write transactions over a versioned property graph.

pub mod adjacency;
pub mod admission;
pub mod aggregates;
pub mod append_rebase;
pub mod authorized;
pub mod authorized_apply;
pub mod authorized_delete;
pub mod authorized_deletion;
pub mod authorized_edge;
pub mod authorized_entry;
pub mod authorized_execute;
pub mod authorized_graph;
pub mod authorized_laws;
pub mod authorized_pair;
pub mod authorized_program;
pub mod authorized_run;
pub mod authorized_statement;
pub mod authorized_statements;
pub mod autocommit;
pub mod autocommit_statements;
pub mod batch;
pub mod beacon;
pub mod beacon_corpus;
pub mod beacon_entry;
pub mod beacon_graph;
pub mod beacon_overlay;
pub mod beacon_search;
pub mod collection;
pub mod collector;
pub mod commit;
pub mod conflict;
pub mod conflict_laws;
pub mod controls;
pub mod database;
pub mod dependency_laws;
pub mod disclosure_laws;
pub mod draft;
pub mod edge_merge;
pub mod edge_reads;
pub mod edge_upsert;
pub mod engine;
pub mod errors;
pub mod evaluator;
pub mod evidence;
pub mod evidence_codec;
pub mod executor;
pub mod finish;
pub mod freshness;
pub mod governed;
pub mod graph;
pub mod identity;
pub mod ids;
pub mod idset;
pub mod intent_laws;
pub mod kernel;
pub mod merge_laws;
pub mod model_laws;
pub mod observation_laws;
pub mod outcome_laws;
pub mod plan;
pub mod program_laws;
pub mod props;
pub mod published;
pub mod published_laws;
pub mod publisher;
pub mod queries;
pub mod read_laws;
pub mod scope;
pub mod scope_laws;
pub mod script;
pub mod search_laws;
pub mod selection;
pub mod selector;
pub mod session;
pub mod standing;
pub mod standing_build;
pub mod standing_laws;
pub mod standing_register;
pub mod standing_registry;
pub mod standing_sets;
pub mod standing_step;
pub mod standing_triangles;
pub mod standing_window;
pub mod statement;
pub mod statement_laws;
pub mod template;
pub mod txn;
pub mod validation_laws;
pub mod vertex_map;
pub mod view_laws;
pub mod weight;
pub mod zset;
