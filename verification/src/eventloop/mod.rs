pub mod callback;
pub mod config;
pub mod error;
pub mod eventloop;
pub mod laws;
pub mod model;
