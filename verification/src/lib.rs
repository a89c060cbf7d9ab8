//! Analysis of Skat positions with all three hands open: cards as a bitset,
//! trick resolution, the open situation and its solver, and the layers that
//! score contracts and enumerate deals.

pub mod analyze_observation;
pub mod bidding_role;
pub mod bits;
pub mod bounds;
pub mod card;
pub mod card_points;
pub mod cards;
pub mod deal;
pub mod deck;
pub mod dist;
pub mod dto;
pub mod game_type;
pub mod minimax_role;
pub mod monte_carlo;
pub mod observed_gameplay;
pub mod open_analysis_performance;
pub mod open_situation_analyzer;
pub mod open_situation_solver;
pub mod optimal_play;
pub mod partial_trick;
pub mod position;
pub mod power;
pub mod quick_bounds;
pub mod rng;
pub mod role;
pub mod situation;
pub mod trick;
pub mod trick_yield;
pub mod util;
