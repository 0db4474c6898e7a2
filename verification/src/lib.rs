//! Source-validated machine caches for a bundler.

pub mod base64_text;
pub mod cache_name;
pub mod codec;
pub mod core_json;
pub mod css_asset;
pub mod css_bundle;
pub mod css_chunk;
pub mod css_name;
pub mod css_path;
pub mod css_prune;
pub mod css_text;
pub mod css_url;
pub mod decimal;
pub mod digest;
pub mod directory;
pub mod file_system;
pub mod json_escape;
pub mod json_module;
pub mod json_parse;
pub mod json_read;
pub mod json_text;
pub mod machine_cache;
pub mod machine_write;
pub mod metadata;
pub mod module_source;
pub mod name_set;
pub mod package_json;
pub mod package_json_cache;
pub mod path_text;
pub mod pattern;
pub mod shared_map;
pub mod text;
pub mod text_edit;
pub mod tsconfig;
pub mod tsconfig_cache;
pub mod tsconfig_reading;
