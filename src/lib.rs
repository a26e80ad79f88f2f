pub mod camera;
pub mod material;
pub mod math;
pub mod primitive;
pub mod renderer;
