//! Rolling screen capture: the decisions behind a clip recorder that keeps a
//! window of short video segments on disk and turns them into clips and
//! recordings by copying, never by encoding again.

pub mod bindings;
pub mod capture;
pub mod codec;
pub mod config;
pub mod daemon;
pub mod dashboard;
pub mod encoder;
pub mod hotkey;
pub mod input;
pub mod overlay;
pub mod paths;
pub mod poller;
pub mod segments;
pub mod sizes;
pub mod storage;
pub mod text;
pub mod utils;
