pub mod text;
pub mod sorting;
pub mod paths;
pub mod model;
pub mod config;
pub mod discover;
pub mod backend;
pub mod report;
pub mod cli;
