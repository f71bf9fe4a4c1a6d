//! Core of an LALR(1) parser generator: grammar loading, automaton
//! construction, conflict resolution and action-table packing.

pub mod actions;
pub mod acttab;
pub mod automaton;
pub mod backing;
pub mod closure;
pub mod compress;
pub mod config;
pub mod decl;
pub mod emit;
pub mod error;
pub mod first;
pub mod follow;
pub mod formed;
pub mod grammar;
pub mod loader;
pub mod minor;
pub mod order;
pub mod pack;
pub mod pipeline;
pub mod precedence;
pub mod prepare;
pub mod report;
pub mod resolve;
pub mod resort;
pub mod runtime;
pub mod sets;
pub mod shifts;
pub mod states;
pub mod symbol;
pub mod tables;
