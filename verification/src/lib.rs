//! A rules engine for the board game Go.
//!
//! The engine keeps a board of `size * size` intersections, discovers
//! connected stone groups and their liberties, applies candidate moves
//! (placement, capture, self-capture rejection, simple ko rejection),
//! classifies empty regions as territory, and scores a position under
//! area or territory rules.

pub mod grid;
pub mod board;
pub mod connectivity;
pub mod counting;
pub mod flood;
pub mod groups;
pub mod moves;
pub mod territory;
pub mod scoring;
pub mod laws;

pub use board::Board;
pub use board::Occupant;
pub use board::SpotState;
pub use groups::find_groups;
pub use groups::remove_dead_stones;
pub use groups::Group;
pub use moves::apply_move_to_board;
pub use moves::coord_to_index;
pub use moves::get_group_indices;
pub use moves::group_has_liberty;
pub use moves::neighbors;
pub use moves::remove_group;
pub use moves::MoveError;
pub use scoring::calculate_score;
pub use scoring::ScoringMethod;
pub use territory::determine_territory;
pub use territory::find_empty_regions;
pub use territory::EmptyRegion;
