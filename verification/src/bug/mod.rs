pub mod bitbug;
pub mod flood_lemmas;
pub mod grid_spec;
pub mod separation;
