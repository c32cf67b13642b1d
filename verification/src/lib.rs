pub mod text;
pub mod natural;
pub mod comicinfo;
pub mod archive;
pub mod metron;
pub mod config;
pub mod commands;
pub mod series;
