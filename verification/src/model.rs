//! The records exchanged with the wallhaven.cc API and printed for the panel.
use vstd::prelude::*;

verus! {

/// Subset of the wallhaven.cc API v1 wallpaper object that Walls uses.
pub struct Wallpaper {
    pub id: String,
    pub path: String,
    pub resolution: String,
    pub dimension_x: u32,
    pub dimension_y: u32,
    pub file_size: u64,
    pub views: u64,
    pub favorites: u64,
    pub category: String,
    pub purity: String,
    pub created_at: String,
    pub thumbs: Thumbs,
}

/// Thumbnail URLs of a wallpaper.
pub struct Thumbs {
    pub large: String,
}

/// Paging data of a search reply.
pub struct SearchMeta {
    pub current_page: u32,
    pub seed: Option<String>,
}

/// A search reply.
pub struct SearchResponse {
    pub data: Vec<Wallpaper>,
    pub meta: Option<SearchMeta>,
}

/// A single-wallpaper reply.
pub struct ItemResponse {
    pub data: Wallpaper,
}

/// One entry handed to the QML panel.
pub struct SearchResult {
    pub id: String,
    pub thumb: String,
    pub resolution: String,
    /// Human-readable file size.
    pub size: String,
    pub views: u64,
    pub favorites: u64,
    pub category: String,
    pub purity: String,
    pub created: String,
}

/// Full stdout payload of `walls search`.
pub struct SearchOut {
    pub results: Vec<SearchResult>,
    pub page: u32,
    pub seed: Option<String>,
}

/// A theme color mapped onto the wallhaven palette.
pub struct ThemeColor {
    pub name: String,
    pub hex: String,
    pub matched: String,
}

/// Full stdout payload of `walls theme-colors`.
pub struct ThemeColors {
    pub colors: Vec<ThemeColor>,
}

impl ThemeColor {
    /// The entry as `(name, hex, matched)` text.
    pub open spec fn triple(&self) -> (Seq<char>, Seq<char>, Seq<char>) {
        (self.name@, self.hex@, self.matched@)
    }
}

/// The entries of a theme color list as `(name, hex, matched)` text.
pub open spec fn color_triples(cs: Seq<ThemeColor>) -> Seq<(Seq<char>, Seq<char>, Seq<char>)> {
    cs.map_values(|c: ThemeColor| c.triple())
}

} // verus!
