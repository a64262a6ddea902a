//! An in-memory lock system for a path-addressed namespace, with WebDAV
//! locking semantics: shared and exclusive locks, depth-0 and deep locks,
//! opaque tokens and optional timeouts.

mod consistency;
mod davlock;
mod laws;
mod memls;
mod model;
mod outside;
mod webpath;

pub use davlock::{locks_view, owner_view, token_in, tokens_view, DavLock, LockView};
pub use laws::{
    law_cascade_delete_clears_subtree, law_exclusive_blocks_scope, law_flat_lock_spares_descendants,
    law_deep_lock_blocks_descendants, law_refresh_keeps_location, law_release_restores,
    law_shared_locks_coexist,
};
pub use memls::MemLs;
pub use model::{
    acquire_ok, consistent, locks_in_place, prefix_closed, tokens_distinct, after_acquire, after_delete, after_refresh, after_release, any_held, blocks_below,
    blocks_hard, deep_only, expiry, first_hard_at, first_token_at, first_token_level, first_unheld_at,
    found_lock, has_descendant, is_live, has_token, held, level_locks, locks_at, path_conflict, path_walk,
    refreshed, subtree_blocked, token_level, token_live, token_pos, walk, walk_conflict,
};
pub use webpath::{
    bytes_equal, copy_bytes, copy_path, is_prefix_path, path_equal, seg_view, segments, split_segments,
    split_state, WebPath,
};
