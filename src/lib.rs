pub mod vec2i;
pub mod tiles;
pub mod world;
pub mod world_view;
pub mod controls;
