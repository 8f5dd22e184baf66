//! A Sokoban solver: level parsing and printing, preprocessing and an A* search
//! that finds move or push optimal solutions.
pub mod data;
pub mod vec2d;
pub mod text;
pub mod moves;
pub mod state;
pub mod config;
pub mod rules;
pub mod map_formatter;
pub mod map;
pub mod solution_formatter;
pub mod level;
pub mod lines;
pub mod scan;
pub mod grid_text;
pub mod parser;
pub mod reach;
pub mod solver;
pub mod formatter;
pub mod extensions;
pub mod codes;
