//! Image tool library: option parsing, layout arithmetic, natural ordering,
//! atlas packing, grid cutting and pixel composition, with verified contracts.

pub mod canvas;
pub mod img_atlas;
pub mod img_cut;
pub mod img_resize;
pub mod natord;
pub mod options;
pub mod packing;
pub mod permutation;
pub mod text;
