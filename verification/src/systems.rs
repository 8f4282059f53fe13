//! The behaviour systems. Each one reads the world as it stands when the
//! system starts, decides for every entity what becomes of it, and issues the
//! host commands that follow, in spawn order of the entities they are
//! addressed to.

pub mod common;
pub mod navigation;
pub mod traps;
pub mod zombies;

pub use common::{despawn_inactive, is_pos_in_radius, track_positions};
pub use navigation::{
    follow_breadscrum, get_target_breadscrum, hunt_target_sys, update_current_cell,
};
pub use traps::trap_sys;
pub use zombies::{
    attack_hit_sys, carnivore_eating_sys, check_aliveness_sys, check_player_revived_sys,
    coward_sys, finish_eating_sys, hostile_to_player_sys, hunger_sys, hungry_sys,
    remove_hungry_sys, test_follow,
};
