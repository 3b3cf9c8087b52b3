use vstd::prelude::*;

pub mod text;
pub mod assets;
pub mod wikilinks;
pub mod source;
pub mod markdown;
pub mod render;
pub mod webroot;
pub mod api;
pub mod error;
pub mod paths;
pub mod images;
pub mod notes;
pub mod sorting;
pub mod search;
pub mod scripts;
pub mod vault;
pub mod client;
