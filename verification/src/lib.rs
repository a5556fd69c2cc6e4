pub mod app;
pub mod cli;
pub mod collections;
pub mod config;
pub mod content;
pub mod diagnostic;
pub mod game;
pub mod model;
pub mod practice;
pub mod stats;
pub mod storage;
pub mod text;
pub mod typing;
