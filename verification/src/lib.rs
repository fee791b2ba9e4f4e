pub mod text;
pub mod sorting;
pub mod lexorder;
pub mod api;
pub mod soccar;
pub mod league;
pub mod scoring;
pub mod season;
pub mod draft;
pub mod records;
pub mod remaining;
pub mod standings;
pub mod espn;
pub mod gridiron;
pub mod registration;
pub mod soccer_poll;
pub mod commands;
pub mod config;
pub mod clock;
