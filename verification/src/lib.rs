//! Builds a forest of named nodes from flat path strings by merging shared
//! prefixes, and renders it as a `tree`-style diagram with connector glyphs.

pub mod chars;
pub mod input;
pub mod render;
pub mod split;
pub mod tree;

pub use input::build_from_input;
pub use render::print_line;
pub use render::render_trees;
pub use tree::make_trees;
pub use tree::FileTree;
