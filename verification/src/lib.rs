//! Scene data for a point renderer: records of a comma-separated resource
//! become nodes with fixed-point coordinates, and the depth of each node
//! becomes a shade between zero and one and a display color.

pub mod decimal;
pub mod fixed;
pub mod loader;
pub mod node;
pub mod normalizer;
pub mod number;
pub mod program;
pub mod scene;
pub mod text;

pub use decimal::parse_fixed;
pub use fixed::Fixed;
pub use loader::{parse_items, parse_items_bytes, Loaded};
pub use node::{parse_node, parse_node_bytes, Node, ParseError};
pub use normalizer::{
    manual_ramp, min_max, normalize, z_coords_to_rgb, ColorRGB, NormalizeError, Ratio,
};
pub use number::{parse_i32, NumberError};
pub use program::BuildStep;
pub use scene::{
    colorize, draw_list, paint_of, quad_corners, z_coords, Paint, Policy, Stamp,
};
