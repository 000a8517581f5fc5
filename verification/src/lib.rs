//! Verified core of a language server for Hearts of Iron IV mod scripts:
//! the script tokenizer, concrete and abstract syntax trees, the script
//! parsers, localisation-file checks and formatters, and the small rule
//! helpers that decide diagnostics.
use vstd::prelude::*;

pub mod text;
pub mod ast;
pub mod numtext;
pub mod cst;
pub mod script;
pub mod rules;
pub mod ai_visibility;
pub mod variables;
pub mod loc;
pub mod loc_load;
pub mod loc_string;
pub mod csv;
pub mod defines;
pub mod portraits;
pub mod gfx;
pub mod findings;
pub mod oob;
pub mod states;
pub mod state_walk;
pub mod state_defs;
pub mod aces;
pub mod ai_areas;
pub mod abilities;
pub mod events;
pub mod event_ids;
pub mod event_walk;
pub mod characters;
pub mod buildings;
pub mod ideologies;
pub mod provinces;
pub mod rename;

verus! {

} // verus!
