pub mod maze;
pub mod paths;
pub mod ppm;
pub mod random;
pub mod render;
pub mod stack;
