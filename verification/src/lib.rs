//! UNDR9: a graph database for the memories of agents.
//!
//! Nodes and edges are records ([`records`]) with identifiers ([`common`]). A graph at one moment
//! is a snapshot ([`graph`]) of records with indexes over them ([`index`], [`vectors`]); batches
//! of writes turn one snapshot into the next ([`mutation`], [`commits`], [`faithful`]), and a
//! database publishes the latest ([`database`]). Queries are planned ([`plan`]) and executed
//! ([`execute`]) over a snapshot, or over one with the writes of a transaction laid over it: by
//! traversal ([`traverse`], [`walks`], [`reach`]), by paths ([`paths`]), by conditions
//! ([`filters`]), by distance ([`distances`]) and by rank ([`rank`], [`memory`]); [`results`] are
//! answers. Leaders pass their commits on to followers ([`replication`], [`cluster`],
//! [`sorting`]).
//!
//! What all this is for is told by laws over the records themselves: that the lists of a graph say
//! what its records say ([`truth`]), what a batch of writes does ([`writes`]), what the answers to
//! queries hold ([`replies`], [`listings`], [`tours`]) and which requests are accepted
//! ([`requests`]), what consolidation does ([`tidying`]), how followers take records over
//! ([`following`]), and who is let through ([`guards`]).
//!
//! Around this stand the service ([`service`], [`routes`], [`state`], [`upkeep`])
//! with its keys ([`auth`]), settings ([`config`]), counts ([`counters`], [`metrics`]) and logs
//! ([`audit`]), and what operators run ([`operate`], [`bench`]).
//!
//! Floating-point numbers are held as their bits. What is computed with them, such as a score,
//! comes from the caller, as does what the storage engine has stored.
pub mod audit;
pub mod auth;
pub mod bench;
pub mod clock;
pub mod cluster;
pub mod commits;
pub mod common;
pub mod config;
pub mod counters;
pub mod database;
pub mod distances;
pub mod execute;
pub mod faithful;
pub mod filters;
pub mod following;
pub mod graph;
pub mod guards;
pub mod index;
pub mod listings;
pub mod memory;
pub mod metrics;
pub mod mutation;
pub mod operate;
pub mod ordered;
pub mod paths;
pub mod plan;
pub mod rank;
pub mod reach;
pub mod records;
pub mod replication;
pub mod replies;
pub mod requests;
pub mod results;
pub mod routes;
pub mod service;
pub mod sorting;
pub mod state;
pub mod text;
pub mod tidying;
pub mod tours;
pub mod traverse;
pub mod truth;
pub mod upkeep;
pub mod vectors;
pub mod walks;
pub mod writes;
