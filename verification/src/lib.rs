//! Ruvyxa's decisions, verified: the rules of its CLI, bundler and dev
//! server that do not need the machine to be made. Each module states what
//! its functions return in contracts over mathematical models, and the laws
//! that hold across calls as proof functions.

pub mod ast;
pub mod atomic_file;
pub mod boundary;
pub mod build_output;
pub mod config;
pub mod devtools;
pub mod discovery;
pub mod dynamic_image;
pub mod environment;
pub mod host_resources;
pub mod image_codec;
pub mod ipv6;
pub mod layout;
pub mod mascot;
pub mod origin;
pub mod package_deps;
pub mod plugin_head;
pub mod process;
pub mod progress;
pub mod robots;
pub mod response;
pub mod runtime_config;
pub mod site_discovery;
pub mod sitemap;
pub mod static_assets;
pub mod text;
pub mod theme;
