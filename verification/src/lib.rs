//! A library for tagging, searching and organising local sound files.
pub mod text;
pub mod number;
pub mod order;
pub mod text_map;
pub mod row_set;
pub mod path;
pub mod model;
pub mod like;
pub mod db;
pub mod downloader;
pub mod backend;
pub mod config;
pub mod media_tools;
pub mod preview_waveform;
pub mod opus_source;
pub mod library;
pub mod ui;
