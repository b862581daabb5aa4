//! Verified core of the `bot7685_ext` extension: an LRU dictionary and the
//! pixel logic behind the wplace tools (palette matching, template compare,
//! overlay, tile composition and grouping of adjacent points).

pub mod lru;
pub mod lru_laws;
pub mod wplace;
