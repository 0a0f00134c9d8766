//! A downloader for web novels: chapter catalogs and contents fetched from
//! configurable services, saved as text files, EPUB books or audio.
pub mod text;
pub mod api;
pub mod types;
pub mod config;
pub mod json;
pub mod download;
pub mod epub;
pub mod audio;
pub mod commands;
