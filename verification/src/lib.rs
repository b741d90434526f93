//! Minimum-size IP route lists from a binary trie of colored prefixes.
//!
//! Prefixes are inserted as bit paths into a binary trie, each carrying a
//! color that names a gateway. A dynamic-programming pass then chooses, per
//! node and per inherited color, whether to emit a route, so that the route
//! list interpreted by longest-prefix match classifies every marked prefix
//! by its color with as few routes as possible.

pub mod bits;
pub mod tree;
