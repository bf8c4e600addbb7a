pub mod client;
pub mod config;
pub mod maze;
pub mod protocol;
pub mod render;
pub mod rng;
pub mod rounds;
pub mod spawn;
pub mod world;
