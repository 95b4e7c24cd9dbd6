//! The logic of galla, a minimal image and video thumbnail gallery: which files
//! it shows and in which order, how thumbnails are made and cached, how the
//! external commands are configured, and how the gallery answers to the
//! keyboard. Files, programs, the clipboard and the window are left to the
//! caller, who hands plain values in and takes decisions back.
//!
//! Paths are the bytes that a Unix file system has for them.

pub mod cache;
pub mod cli;
pub mod codec;
pub mod config;
pub mod gallery;
pub mod keyboard;
pub mod layout;
pub mod media;
pub mod order;
pub mod path;
pub mod pieces;
pub mod text;
pub mod thumb;
