pub mod text;
pub mod links;
pub mod paths;
pub mod path_order;
pub mod config;
pub mod file_order;
pub mod hooks;
pub mod refresh;
pub mod commands;
pub mod db;
