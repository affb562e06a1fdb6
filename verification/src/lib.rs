pub mod text;
pub mod param_map;
pub mod route_matcher;
pub mod string_optimized;
pub mod cow_optimized;
pub mod object_pool;
pub mod cache;
pub mod lockfree_cache;
pub mod lockfree_shard;
pub mod simd_optimized;
pub mod cache_optimized;
pub mod route_entry;
pub mod route_registry;
pub mod route_validator;
pub mod segment_tree;
pub mod route_trie;
pub mod route_radix_tree;
pub mod bytes_optimized;
pub mod models;
pub mod error;
pub mod dynamic_sharding;
pub mod route_table;
pub mod dynamic_route_table;
pub mod papaya_route_table;
pub mod geoip;
pub mod wallpaper;
