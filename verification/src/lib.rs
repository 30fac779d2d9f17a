//! Claimlands: the rules of a turn-based territory game on a hexagonal
//! planet, with every rule stated as a contract and proved.

pub mod apply;
pub mod arith;
pub mod builder;
pub mod command;
pub mod cost_filters;
pub mod cover;
pub mod digest;
pub mod economy;
pub mod event;
pub mod geodesic;
pub mod golden;
pub mod growth;
pub mod hash;
pub mod ids;
pub mod invariants;
pub mod levels;
pub mod movement;
pub mod pack;
pub mod planet_hash;
pub mod playout;
pub mod replay_text;
pub mod rng;
pub mod rules;
pub mod session;
pub mod soundness;
pub mod state;
pub mod rules_check;
pub mod rules_default;
pub mod terrain;
pub mod territory;
pub mod tileset;
pub mod topo;
pub mod topology;
pub mod victory;
pub mod treasury;
pub mod turn;
