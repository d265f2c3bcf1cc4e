//! A keyboard-driven file finder: the rules behind the picker window.
pub mod assets;
pub mod color;
pub mod components;
pub mod config;
pub mod display;
pub mod editor;
pub mod grammar;
pub mod hotkey;
pub mod keys;
pub mod launch;
pub mod login_item;
pub mod matching;
pub mod nesting;
pub mod opening;
pub mod order;
pub mod overlay;
pub mod path_shortening;
pub mod paths;
pub mod picker;
pub mod preview;
pub mod query;
pub mod search;
pub mod service;
pub mod text;
pub mod theme;
pub mod zed;
