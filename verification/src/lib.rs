//! Structural analysis of code bases: import resolution, dependency graphs
//! and the decisions behind the command line.

pub mod aliases;
pub mod analytics;
pub mod cli;
pub mod document;
pub mod graph;
pub mod gui;
pub mod health;
pub mod imports;
pub mod license;
pub mod lists;
pub mod manifest;
pub mod modules;
mod parallel;
pub mod plugins;
pub mod prefixes;
pub mod profile;
pub mod projects;
pub mod quality;
pub mod report;
pub mod sorting;
pub mod table;
pub mod text;
pub mod types;
pub mod xml;
