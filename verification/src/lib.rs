//! The object-database engine of a git implementation: object identity and
//! storage decisions, reachability walks, pack and multi-pack-index planning,
//! bitmap construction, and repack policy, each with a proved contract.

pub mod alternates;
pub mod bitmap;
pub mod bitmap_build;
pub mod bitmap_history_laws;
pub mod bitmap_laws;
pub mod bitmap_load;
pub mod bitmap_load_laws;
pub mod bitmap_plan_laws;
pub mod bitmap_walk;
pub mod bitset;
pub mod cruft;
pub mod cruft_laws;
pub mod cruft_repack;
pub mod cruft_split;
pub mod cruft_split_laws;
pub mod database;
pub mod database_laws;
pub mod error;
pub mod filter;
pub mod filter_laws;
pub mod gc;
pub mod geometry;
pub mod geometry_laws;
pub mod geometry_midx;
pub mod geometry_repack;
pub mod hex_id;
pub mod install;
pub mod install_laws;
pub mod install_plan;
pub mod key_map;
pub mod lineage;
pub mod link_laws;
pub mod lookup;
pub mod lookup_laws;
pub mod loose;
pub mod loose_cache;
pub mod loose_read;
pub mod loose_repack;
pub mod lru;
pub mod lru_laws;
pub mod midx;
pub mod midx_laws;
pub mod midx_layer;
pub mod object;
pub mod object_id;
pub mod object_times;
pub mod oid_map;
pub mod order;
pub mod pack_assemble;
pub mod pack_dir;
pub mod pack_file;
pub mod pack_install;
pub mod pack_laws;
pub mod pack_order;
pub mod pack_scan;
pub mod pack_scan_laws;
pub mod packed_read;
pub mod presence;
pub mod quarantine;
pub mod raw_pack;
pub mod reachability;
pub mod reachable_repack;
pub mod registry;
pub mod repack;
pub mod repack_install;
pub mod repack_laws;
pub mod sparse;
pub mod text;
pub mod text_file;
pub mod text_laws;
pub mod transfer;
pub mod unpack;
pub mod walk;
pub mod walk_laws;
pub mod walk_order_laws;
pub mod zlib;
